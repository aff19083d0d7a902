//! The log-structured store: generations on disk, the keydir in memory.

use vstd::prelude::*;

verus! {

use crate::error::KvStoreError;
use crate::keydir::Keydir;
use crate::log::Command;
use crate::log::CommandV;
use crate::replay::SlotV;
use crate::replay::apply_command;
use crate::replay::replay_file;
use crate::replay::replay_files;
use crate::replay::stream_of;
use crate::replay::lemma_replay_file_empty;
use crate::replay::lemma_replay_files_snoc;
use crate::replay::lemma_replay_file_append;
use crate::replay::lemma_stream_of_snoc;
use crate::replay::lemma_replay_valid;
use crate::replay::slot_valid;
use crate::codec::encode_command;
use crate::codec::parse_command;

/// How many overwrites or removes may pass before a compaction runs.
pub const COMPACTION_THRESHOLD: u64 = 5000;

/// The buffered writer over the current generation: its contents so far and
/// a running count of what was written.
pub struct SequentialWriter {
    writer: Vec<char>,
    written_bytes: u64,
}

impl SequentialWriter {
    /// The characters written so far.
    pub closed spec fn contents(&self) -> Seq<char> {
        self.writer@
    }

    /// The running counter's value.
    pub closed spec fn written(&self) -> u64 {
        self.written_bytes
    }

    /// The running counter agrees with the contents.
    pub closed spec fn wf(&self) -> bool {
        self.written_bytes == self.writer@.len()
    }

    /// Wraps an already-written prefix and its length; the pair is
    /// well-formed exactly when the length is truthful.
    pub fn new(writer: Vec<char>, written_bytes: u64) -> (r: Self)
        ensures
            r.contents() == writer@,
            r.written() == written_bytes,
            r.wf() <==> written_bytes == writer@.len(),
    {
        Self { writer, written_bytes }
    }

    /// How much has been written.
    pub fn bytes_written(&self) -> (r: u64)
        ensures
            r == self.written(),
    {
        self.written_bytes
    }

    /// The buffer itself, for reading back what was written.
    pub fn get_mut(&mut self) -> (r: &mut Vec<char>)
        ensures
            r@ == old(self).contents(),
            final(self).contents() == final(r)@,
            final(self).written() == old(self).written(),
    {
        &mut self.writer
    }

    /// Reads what has been written so far.
    pub fn buffer(&self) -> (r: &Vec<char>)
        ensures
            r@ == self.contents(),
    {
        &self.writer
    }

    /// Gives the buffer up.
    pub fn into_inner(self) -> (r: Vec<char>)
        ensures
            r@ == self.contents(),
    {
        self.writer
    }

    /// Appends `data` and advances the counter by exactly its length.
    pub fn write(&mut self, data: &Vec<char>)
        requires
            old(self).wf(),
        ensures
            final(self).wf(),
            final(self).contents() == old(self).contents() + data@,
            final(self).written() == old(self).written() + data@.len(),
    {
        self.writer.extend_from_slice(data.as_slice());
        let n = self.writer.len();
        self.written_bytes = n as u64;
    }

    /// Flushing the model writer changes nothing; durability is the disk
    /// mirror's concern.
    pub fn flush(&mut self)
        ensures
            *final(self) == *old(self),
    {
    }
}


/// One mutation of the store directory, for the disk mirror to perform.
pub enum DiskAction {
    /// Create `<generation>.db`, empty.
    Create { generation: u64 },
    /// Append `data` to `<generation>.db`.
    Append { generation: u64, data: Vec<char> },
    /// Delete `<generation>.db`.
    Delete { generation: u64 },
}

/// The mathematical shape of a [`DiskAction`].
pub enum DiskActionV {
    Create { generation: u64 },
    Append { generation: u64, data: Seq<char> },
    Delete { generation: u64 },
}

impl View for DiskAction {
    type V = DiskActionV;

    open spec fn view(&self) -> DiskActionV {
        match self {
            DiskAction::Create { generation } => DiskActionV::Create { generation: *generation },
            DiskAction::Append { generation, data } => DiskActionV::Append {
                generation: *generation,
                data: data@,
            },
            DiskAction::Delete { generation } => DiskActionV::Delete { generation: *generation },
        }
    }
}

/// What one action does to the directory, as a list of generation files in
/// ascending order.
pub open spec fn apply_action(
    d: Seq<(u64, Seq<char>)>,
    a: DiskActionV,
) -> Seq<(u64, Seq<char>)> {
    match a {
        DiskActionV::Create { generation } => d.push((generation, Seq::empty())),
        DiskActionV::Append { generation, data } => d.map_values(
            |p: (u64, Seq<char>)| if p.0 == generation {
                (p.0, p.1 + data)
            } else {
                p
            },
        ),
        DiskActionV::Delete { generation } => d.filter(|p: (u64, Seq<char>)| p.0 != generation),
    }
}

/// A list of actions, applied in order.
pub open spec fn apply_actions(
    d: Seq<(u64, Seq<char>)>,
    acts: Seq<DiskActionV>,
) -> Seq<(u64, Seq<char>)>
    decreases acts.len(),
{
    if acts.len() == 0 {
        d
    } else {
        apply_actions(apply_action(d, acts[0]), acts.skip(1))
    }
}

/// Applying a concatenation applies the two halves in turn.
pub proof fn lemma_apply_actions_add(
    d: Seq<(u64, Seq<char>)>,
    a1: Seq<DiskActionV>,
    a2: Seq<DiskActionV>,
)
    ensures
        apply_actions(d, a1 + a2) == apply_actions(apply_actions(d, a1), a2),
    decreases a1.len(),
{
    if a1.len() == 0 {
        assert(a1 + a2 =~= a2);
    } else {
        lemma_apply_actions_add(apply_action(d, a1[0]), a1.skip(1), a2);
        assert((a1 + a2).skip(1) =~= a1.skip(1) + a2);
        assert((a1 + a2)[0] == a1[0]);
    }
}


/// Deleting the front generation: when only the first file carries `g`,
/// filtering `g` out drops exactly that file.
proof fn lemma_filter_front(d: Seq<(u64, Seq<char>)>, g: u64)
    requires
        d.len() >= 1,
        d[0].0 == g,
        forall|p: int| 1 <= p < d.len() ==> d[p].0 != g,
    ensures
        d.filter(|p: (u64, Seq<char>)| p.0 != g) == d.skip(1),
    decreases d.len(),
{
    reveal(Seq::filter);
    let pred = |p: (u64, Seq<char>)| p.0 != g;
    if d.len() == 1 {
        assert(d.drop_last() =~= Seq::<(u64, Seq<char>)>::empty());
        assert(d.drop_last().filter(pred) == Seq::<(u64, Seq<char>)>::empty());
        assert(!pred(d.last()));
        assert(d.skip(1) =~= Seq::<(u64, Seq<char>)>::empty());
    } else {
        lemma_filter_front(d.drop_last(), g);
        assert(pred(d.last()));
        assert(d.filter(pred) == d.drop_last().filter(pred).push(d.last()));
        assert(d.drop_last().skip(1).push(d.last()) =~= d.skip(1));
    }
}

/// A list of owned generation files, viewed.
pub open spec fn files_view(files: Seq<(u64, Vec<char>)>) -> Seq<(u64, Seq<char>)> {
    files.map_values(|p: (u64, Vec<char>)| (p.0, p.1@))
}

/// The log-structured store. Its persistent state is modeled in memory: the
/// contents of each generation file are held here, and every change to them
/// is also queued as a [`DiskAction`] for the caller's disk mirror.
pub struct KvStore {
    writer: SequentialWriter,
    keydir: Keydir,
    files: Vec<(u64, Vec<char>)>,
    generation_cnt: u64,
    compaction_cnt: u64,
    compaction_in_progress: bool,
    actions: Vec<DiskAction>,
    cur_records: Ghost<Seq<CommandV>>,
}

impl KvStore {
    /// The sealed generations: every file but the current one.
    pub closed spec fn sealed(&self) -> Seq<(u64, Seq<char>)> {
        files_view(self.files@)
    }

    /// Every generation file, the current one last.
    pub closed spec fn disk(&self) -> Seq<(u64, Seq<char>)> {
        self.sealed().push((self.generation_cnt, self.writer.contents()))
    }

    /// What a set of generation files means: the index that replay builds.
    pub open spec fn model_of(d: Seq<(u64, Seq<char>)>) -> Map<Seq<char>, SlotV> {
        replay_files(Map::empty(), d)
    }

    /// The index that replaying this store's files builds.
    pub open spec fn model(&self) -> Map<Seq<char>, SlotV> {
        Self::model_of(self.disk())
    }

    /// The key-value pairs an index holds.
    pub open spec fn live_of(m: Map<Seq<char>, SlotV>) -> Map<Seq<char>, Seq<char>> {
        m.map_values(|s: SlotV| s.val)
    }

    /// The key-value pairs this store holds.
    pub open spec fn live(&self) -> Map<Seq<char>, Seq<char>> {
        Self::live_of(self.model())
    }

    /// The keydir an index dictates: each key's (generation, offset).
    pub open spec fn spec_keydir(m: Map<Seq<char>, SlotV>) -> Map<Seq<char>, (u64, u64)> {
        m.map_values(|s: SlotV| (s.gen as u64, s.off as u64))
    }

    /// The queued disk actions not yet taken by the mirror.
    pub closed spec fn pending(&self) -> Seq<DiskActionV> {
        self.actions@.map_values(|a: DiskAction| a@)
    }

    /// The current generation number.
    pub closed spec fn generation(&self) -> u64 {
        self.generation_cnt
    }

    /// How many compaction candidates (overwrites and removes) have been
    /// counted since the last time the count was reset.
    pub closed spec fn compaction_count(&self) -> u64 {
        self.compaction_cnt
    }

    /// The contents of the current generation file.
    pub closed spec fn current_file(&self) -> Seq<char> {
        self.writer.contents()
    }

    /// Where the next record will land: how much of the current generation
    /// file is written.
    pub closed spec fn current_offset(&self) -> u64 {
        self.writer.written()
    }

    /// Whether a compaction is running.
    pub closed spec fn in_compaction(&self) -> bool {
        self.compaction_in_progress
    }

    /// The store's invariant: the writer counter is exact, the current file
    /// is a clean stream of records, sealed generations are strictly
    /// ascending and below the current one, and the keydir is exactly what
    /// replaying the files yields.
    pub closed spec fn wf(&self) -> bool {
        &&& self.writer.wf()
        &&& self.keydir.wf()
        &&& self.writer.contents() == stream_of(self.cur_records@)
        &&& (forall|i: int, j: int|
            0 <= i < j < self.sealed().len() ==> self.sealed()[i].0 < self.sealed()[j].0)
        &&& (forall|i: int|
            0 <= i < self.sealed().len() ==> self.sealed()[i].0 < self.generation_cnt)
        &&& self.compaction_cnt < COMPACTION_THRESHOLD
        &&& self.keydir@ == Self::spec_keydir(self.model())
    }

    /// The disk mirror's accounting: across a call, the queue only grew, and
    /// applying exactly the new actions to the old files gives the new files.
    pub open spec fn actions_account(pre: KvStore, post: KvStore) -> bool {
        &&& pre.pending().is_prefix_of(post.pending())
        &&& post.disk() == apply_actions(
            pre.disk(),
            post.pending().skip(pre.pending().len() as int),
        )
    }

    /// Opens a store over the generation files found in its directory, in
    /// ascending generation order. Replays every file to rebuild the keydir;
    /// an undecodable point in a file ends that file's replay and is not an
    /// error. The current generation is one past the newest file present, or
    /// zero for a fresh or empty directory, and starts as a new empty file.
    pub fn open(files_on_disk: Vec<(u64, Vec<char>)>) -> (r: Result<KvStore, KvStoreError>)
        requires
            forall|i: int, j: int|
                0 <= i < j < files_on_disk@.len() ==> files_on_disk@[i].0 < files_on_disk@[j].0,
            forall|i: int|
                0 <= i < files_on_disk@.len() ==> files_on_disk@[i].0 < u64::MAX,
        ensures
            r matches Ok(s) && {
                &&& s.wf()
                &&& !s.in_compaction()
                &&& s.generation() == if files_on_disk@.len() == 0 {
                    0u64
                } else {
                    (files_on_disk@.last().0 + 1) as u64
                }
                &&& s.model() == Self::model_of(files_view(files_on_disk@))
                &&& s.live() == Self::live_of(Self::model_of(files_view(files_on_disk@)))
                &&& s.disk() == files_view(files_on_disk@).push((s.generation(), Seq::empty()))
                &&& s.pending() =~= seq![DiskActionV::Create { generation: s.generation() }]
                &&& s.compaction_count() == 0
                &&& s.current_offset() == 0
                &&& s.current_file() == Seq::<char>::empty()
            },
    {
        let n = files_on_disk.len();
        let generation_cnt: u64 = if n == 0 {
            0
        } else {
            files_on_disk[n - 1].0 + 1
        };
        let mut keydir = Keydir::new();
        let ghost mut m: Map<Seq<char>, SlotV> = Map::empty();
        let mut i: usize = 0;
        while i < n
            invariant
                n == files_on_disk@.len(),
                i <= n,
                m == replay_files(Map::empty(), files_view(files_on_disk@).take(i as int)),
                keydir.wf(),
                keydir@ == Self::spec_keydir(m),
            decreases n - i,
        {
            let generation = files_on_disk[i].0;
            let ghost m_start = m;
            let ghost content_v = files_on_disk@[i as int].1@;
            let content_len = files_on_disk[i].1.len();
            proof {
                assert(content_v.skip(0) =~= content_v);
            }
            let mut pos: usize = 0;
            loop
                invariant
                    n == files_on_disk@.len(),
                    i < n,
                    content_v == files_on_disk@[i as int].1@,
                    generation == files_on_disk@[i as int].0,
                    pos <= content_v.len(),
                    content_len == content_v.len(),
                    replay_file(m_start, generation as int, 0, content_v) == replay_file(
                        m,
                        generation as int,
                        pos as int,
                        content_v.skip(pos as int),
                    ),
                    keydir.wf(),
                    keydir@ == Self::spec_keydir(m),
                ensures
                    replay_file(m_start, generation as int, 0, content_v) == m,
                    keydir.wf(),
                    keydir@ == Self::spec_keydir(m),
                decreases content_v.len() - pos,
            {
                let content = &files_on_disk[i].1;
                match crate::codec::parse_command_exec(content, pos) {
                    Some((cmd, used)) => {
                        let ghost pos0 = pos as int;
                        let ghost m0 = m;
                        proof {
                            m = apply_command(m, generation as int, pos0, cmd@);
                        }
                        match cmd {
                            Command::Put { key, value } => {
                                let off64: u64 = pos as u64;
                                keydir.insert(key, generation, off64);
                                proof {
                                    assert(keydir@ =~= Self::spec_keydir(m));
                                }
                            },
                            Command::Remove { key } => {
                                keydir.remove(&key);
                                proof {
                                    assert(keydir@ =~= Self::spec_keydir(m));
                                }
                            },
                        }
                        pos = pos + used;
                        proof {
                            assert(content_v.skip(pos0).skip(used as int) =~= content_v.skip(
                                pos as int,
                            ));
                        }
                    },
                    None => {
                        break;
                    },
                }
            }
            proof {
                m = replay_file(m_start, generation as int, 0, content_v);
                let fv = files_view(files_on_disk@);
                assert(fv.take(i + 1) =~= fv.take(i as int).push(fv[i as int]));
                lemma_replay_files_snoc(
                    Map::empty(),
                    fv.take(i as int),
                    generation,
                    content_v,
                );
                assert(fv[i as int] == (generation, content_v));
            }
            i = i + 1;
        }
        let writer = SequentialWriter::new(Vec::new(), 0);
        let mut actions: Vec<DiskAction> = Vec::new();
        actions.push(DiskAction::Create { generation: generation_cnt });
        let store = KvStore {
            writer,
            keydir,
            files: files_on_disk,
            generation_cnt,
            compaction_cnt: 0,
            compaction_in_progress: false,
            actions,
            cur_records: Ghost(Seq::empty()),
        };
        proof {
            let fv = files_view(store.files@);
            assert(fv.take(n as int) =~= fv);
            assert(stream_of(Seq::<CommandV>::empty()) == Seq::<char>::empty());
            assert(store.writer.contents() =~= stream_of(store.cur_records@));
            lemma_replay_files_snoc(Map::empty(), fv, generation_cnt, store.writer.contents());
            assert(store.writer.contents() =~= Seq::<char>::empty());
            lemma_replay_file_empty(replay_files(Map::empty(), fv), generation_cnt as int, 0);
            assert(store.model() == m);
            assert(store.pending() =~= seq![DiskActionV::Create { generation: generation_cnt }]);
        }
        Ok(store)
    }

    /// The accounting composes across two calls.
    proof fn lemma_account_trans(a: KvStore, b: KvStore, c: KvStore)
        requires
            Self::actions_account(a, b),
            Self::actions_account(b, c),
        ensures
            Self::actions_account(a, c),
    {
        let la = a.pending().len() as int;
        let lb = b.pending().len() as int;
        let d1 = b.pending().skip(la);
        let d2 = c.pending().skip(lb);
        assert(b.pending() =~= a.pending() + d1);
        assert(c.pending() =~= b.pending() + d2);
        assert(c.pending().skip(la) =~= d1 + d2);
        lemma_apply_actions_add(a.disk(), d1, d2);
        assert(a.pending() =~= c.pending().subrange(0, la));
    }

    /// A call that queues nothing and moves no file keeps the accounting.
    proof fn lemma_account_refl(a: KvStore, b: KvStore)
        requires
            a.pending() == b.pending(),
            a.disk() == b.disk(),
        ensures
            Self::actions_account(a, b),
    {
        assert(b.pending().skip(a.pending().len() as int) =~= Seq::<DiskActionV>::empty());
        assert(a.pending() =~= b.pending().subrange(0, a.pending().len() as int));
    }

    /// Appends one `Set` record for (key, value) to the current generation,
    /// and updates the keydir to point at it. Performs no compaction.
    fn set_internal(&mut self, key: String, value: String)
        requires
            old(self).wf(),
        ensures
            final(self).wf(),
            final(self).generation_cnt == old(self).generation_cnt,
            final(self).files == old(self).files,
            final(self).compaction_cnt == old(self).compaction_cnt,
            final(self).compaction_in_progress == old(self).compaction_in_progress,
            final(self).cur_records@ == old(self).cur_records@.push(
                CommandV::Put { key: key@, value: value@ },
            ),
            final(self).keydir@ == old(self).keydir@.insert(
                key@,
                (old(self).generation_cnt, old(self).writer.written()),
            ),
            final(self).model() == old(self).model().insert(
                key@,
                SlotV {
                    gen: old(self).generation_cnt as int,
                    off: old(self).writer.written() as int,
                    val: value@,
                },
            ),
            final(self).live() == old(self).live().insert(key@, value@),
            final(self).writer.written() == old(self).writer.written() + encode_command(
                CommandV::Put { key: key@, value: value@ },
            ).len(),
            final(self).writer.contents() == old(self).writer.contents() + encode_command(
                CommandV::Put { key: key@, value: value@ },
            ),
            final(self).pending() == old(self).pending().push(
                DiskActionV::Append {
                    generation: old(self).generation_cnt,
                    data: encode_command(CommandV::Put { key: key@, value: value@ }),
                },
            ),
            Self::actions_account(*old(self), *final(self)),
    {
        let ghost pre = *self;
        let ghost cmd_v = CommandV::Put { key: key@, value: value@ };
        let offset = self.writer.bytes_written();
        self.keydir.insert(key.clone(), self.generation_cnt, offset);
        let cmd = Command::Put { key, value };
        let enc = crate::codec::encode_command_exec(&cmd);
        self.writer.write(&enc);
        self.actions.push(DiskAction::Append { generation: self.generation_cnt, data: enc });
        proof {
            self.cur_records@ = pre.cur_records@.push(cmd_v);
        }
        proof {
            let g = pre.generation_cnt;
            let m0 = replay_files(Map::empty(), pre.sealed());
            lemma_stream_of_snoc(pre.cur_records@, cmd_v);
            lemma_replay_files_snoc(Map::empty(), pre.sealed(), g, pre.writer.contents());
            lemma_replay_files_snoc(Map::empty(), pre.sealed(), g, self.writer.contents());
            lemma_replay_file_append(m0, g as int, 0, pre.cur_records@, cmd_v);
            assert(self.sealed() == pre.sealed());
            assert(self.writer.contents() == stream_of(pre.cur_records@) + encode_command(cmd_v));
            assert(self.model() == pre.model().insert(
                key@,
                SlotV { gen: g as int, off: offset as int, val: value@ },
            ));
            assert(self.keydir@ =~= Self::spec_keydir(self.model()));
            assert(self.live() =~= pre.live().insert(key@, value@));
            assert(self.pending() =~= pre.pending().push(
                DiskActionV::Append { generation: g, data: encode_command(cmd_v) },
            ));
            let delta = self.pending().skip(pre.pending().len() as int);
            assert(delta =~= seq![
                DiskActionV::Append { generation: g, data: encode_command(cmd_v) },
            ]);
            let a0 = delta[0];
            assert(apply_actions(pre.disk(), delta) == apply_actions(
                apply_action(pre.disk(), a0),
                delta.skip(1),
            ));
            assert(delta.skip(1) =~= Seq::<DiskActionV>::empty());
            assert(self.disk() =~= apply_action(pre.disk(), a0));
            assert(pre.pending() =~= self.pending().subrange(0, pre.pending().len() as int));
        }
    }

    /// The value of `key`: the value of its newest `Set` record, read back
    /// from the generation file the keydir points into, or `None` when the
    /// key is not live.
    pub fn get(&mut self, key: String) -> (r: Result<Option<String>, KvStoreError>)
        requires
            old(self).wf(),
        ensures
            *final(self) == *old(self),
            r is Ok,
            match r {
                Ok(opt) => match opt {
                    Some(v) => old(self).live().dom().contains(key@) && v@ == old(
                        self,
                    ).live()[key@],
                    None => !old(self).live().dom().contains(key@),
                },
                Err(_) => false,
            },
    {
        let looked = self.keydir.get(&key);
        match looked {
            None => {
                proof {
                    assert(Self::spec_keydir(self.model()).dom() =~= self.model().dom());
                    assert(self.live().dom() =~= self.model().dom());
                }
                Ok(None)
            },
            Some((g, off)) => {
                proof {
                    lemma_replay_valid(self.disk());
                    assert(Self::spec_keydir(self.model()).dom() =~= self.model().dom());
                    assert(self.live().dom() =~= self.model().dom());
                }
                let ghost slot = self.model()[key@];
                proof {
                    assert(slot_valid(key@, slot, self.disk()));
                    let i = choose|i: int|
                        0 <= i < self.disk().len() && self.disk()[i].0 as int == slot.gen && 0
                            <= slot.off <= self.disk()[i].1.len() && (parse_command(
                            self.disk()[i].1.skip(slot.off),
                        ) matches Some(p) && p.0 == (CommandV::Put { key: key@, value: slot.val }));
                    assert(self.model().dom().contains(key@));
                    assert(Self::spec_keydir(self.model())[key@] == (
                        slot.gen as u64,
                        slot.off as u64,
                    ));
                    assert(g == slot.gen as u64 && off == slot.off as u64);
                    assert(self.disk()[i].0 as int == slot.gen);
                    assert(slot.off <= self.disk()[i].1.len());
                }
                if g == self.generation_cnt {
                    proof {
                        let i = choose|i: int|
                            0 <= i < self.disk().len() && self.disk()[i].0 as int == slot.gen && 0
                                <= slot.off <= self.disk()[i].1.len() && (parse_command(
                                self.disk()[i].1.skip(slot.off),
                            ) matches Some(p) && p.0 == (
                            CommandV::Put { key: key@, value: slot.val }));
                        if i < self.sealed().len() {
                            assert(self.sealed()[i].0 < self.generation_cnt);
                            assert(false);
                        }
                        assert(self.disk()[i].1 == self.writer.contents());
                    }
                    let buf = self.writer.buffer();
                    let blen = buf.len();
                    proof {
                        assert(slot.off <= blen);
                    }
                    let off_us = off as usize;
                    match crate::codec::parse_command_exec(buf, off_us) {
                        Some((cmd, _used)) => match cmd {
                            Command::Put { key: _k, value } => Ok(Some(value)),
                            Command::Remove { .. } => Err(KvStoreError::InvalidFileHandler),
                        },
                        None => Err(KvStoreError::InvalidFileHandler),
                    }
                } else {
                    let mut j: usize = 0;
                    let nf = self.files.len();
                    let ghost i = choose|i: int|
                        0 <= i < self.disk().len() && self.disk()[i].0 as int == slot.gen && 0
                            <= slot.off <= self.disk()[i].1.len() && (parse_command(
                            self.disk()[i].1.skip(slot.off),
                        ) matches Some(p) && p.0 == (CommandV::Put { key: key@, value: slot.val }));
                    proof {
                        if i == self.sealed().len() {
                            assert(self.disk()[i].0 == self.generation_cnt);
                            assert(false);
                        }
                        assert(self.sealed()[i] == (self.files@[i].0, self.files@[i].1@));
                    }
                    while j < nf && self.files[j].0 != g
                        invariant
                            nf == self.files@.len(),
                            j <= nf,
                            0 <= i < self.files@.len(),
                            self.files@[i].0 == g,
                            forall|p: int| 0 <= p < j ==> self.files@[p].0 != g,
                        decreases nf - j,
                    {
                        j = j + 1;
                    }
                    proof {
                        if j == nf {
                            assert(self.files@[i].0 != g);
                            assert(false);
                        }
                        assert(j < nf);
                        assert(self.sealed()[j as int].0 == g);
                        if j != i {
                            assert(self.sealed()[i].0 == g);
                            assert(false);
                        }
                    }
                    let content = &self.files[j].1;
                    let blen = content.len();
                    proof {
                        assert(content@ == self.disk()[i].1);
                        assert(slot.off <= blen);
                    }
                    let off_us = off as usize;
                    match crate::codec::parse_command_exec(content, off_us) {
                        Some((cmd, _used)) => match cmd {
                            Command::Put { key: _k, value } => Ok(Some(value)),
                            Command::Remove { .. } => Err(KvStoreError::InvalidFileHandler),
                        },
                        None => Err(KvStoreError::InvalidFileHandler),
                    }
                }
            },
        }
    }
}

} // verus!

verus! {

impl crate::engine::KvsEngine for KvStore {
    open spec fn live(&self) -> Map<Seq<char>, Seq<char>> {
        KvStore::live(self)
    }

    open spec fn inv(&self) -> bool {
        self.wf()
    }

    fn set(&mut self, key: String, value: String) -> (r: Result<(), KvStoreError>) {
        KvStore::set(self, key, value)
    }

    fn get(&mut self, key: String) -> (r: Result<Option<String>, KvStoreError>) {
        KvStore::get(self, key)
    }

    fn remove(&mut self, key: String) -> (r: Result<(), KvStoreError>) {
        KvStore::remove(self, key)
    }
}

} // verus!

verus! {

impl KvStore {
    /// Removes `key`: erases it from the keydir and appends a `Remove`
    /// record, which counts toward the compaction threshold exactly as an
    /// overwrite does. Fails with `KeyNotFound`, writing nothing, when the
    /// key is not live.
    pub fn remove(&mut self, key: String) -> (r: Result<(), KvStoreError>)
        requires
            old(self).wf(),
        ensures
            final(self).wf(),
            final(self).in_compaction() == old(self).in_compaction(),
            Self::actions_account(*old(self), *final(self)),
            final(self).compaction_count() < COMPACTION_THRESHOLD,
            old(self).live().dom().contains(key@) ==> r is Ok && final(self).live() == old(
                self,
            ).live().remove(key@),
            !old(self).live().dom().contains(key@) ==> (r matches Err(e) && e matches
                KvStoreError::KeyNotFound { key: k } && k@ == key@) && *final(self) == *old(self),
            old(self).live().dom().contains(key@) ==> ({
                let counted: int = old(self).compaction_count() + 1;
                let compacted = counted == COMPACTION_THRESHOLD && old(self).generation()
                    < u64::MAX && !old(self).in_compaction();
                &&& final(self).compaction_count() == (if counted == COMPACTION_THRESHOLD {
                    0 as int
                } else {
                    counted
                })
                &&& !compacted ==> {
                    &&& final(self).generation() == old(self).generation()
                    &&& final(self).keydir_map() == old(self).keydir_map().remove(key@)
                    &&& final(self).current_file() == old(self).current_file() + encode_command(
                        CommandV::Remove { key: key@ },
                    )
                    &&& final(self).current_offset() == old(self).current_offset()
                        + encode_command(CommandV::Remove { key: key@ }).len()
                    &&& final(self).disk() == apply_action(
                        old(self).disk(),
                        DiskActionV::Append {
                            generation: old(self).generation(),
                            data: encode_command(CommandV::Remove { key: key@ }),
                        },
                    )
                }
                &&& compacted ==> {
                    &&& final(self).generation() == old(self).generation() + 1
                    &&& final(self).disk().len() == 1
                    &&& final(self).disk()[0].0 == final(self).generation()
                }
            }),
    {
        proof {
            assert(Self::spec_keydir(old(self).model()).dom() =~= old(self).model().dom());
            assert(old(self).live().dom() =~= old(self).model().dom());
        }
        if !self.keydir.contains_key(&key) {
            proof {
                Self::lemma_account_refl(*self, *self);
            }
            return Err(KvStoreError::KeyNotFound { key });
        }
        let ghost pre = *self;
        let ghost cmd_v = CommandV::Remove { key: key@ };
        let offset = self.writer.bytes_written();
        self.keydir.remove(&key);
        let cmd = Command::Remove { key };
        let enc = crate::codec::encode_command_exec(&cmd);
        self.writer.write(&enc);
        self.actions.push(DiskAction::Append { generation: self.generation_cnt, data: enc });
        proof {
            self.cur_records@ = pre.cur_records@.push(cmd_v);
        }
        proof {
            let g = pre.generation_cnt;
            let m0 = replay_files(Map::empty(), pre.sealed());
            lemma_stream_of_snoc(pre.cur_records@, cmd_v);
            lemma_replay_files_snoc(Map::empty(), pre.sealed(), g, pre.writer.contents());
            lemma_replay_files_snoc(Map::empty(), pre.sealed(), g, self.writer.contents());
            lemma_replay_file_append(m0, g as int, 0, pre.cur_records@, cmd_v);
            assert(self.sealed() == pre.sealed());
            assert(self.writer.contents() == stream_of(pre.cur_records@) + crate::codec::encode_command(cmd_v));
            assert(self.model() == pre.model().remove(key@));
            assert(self.keydir@ =~= Self::spec_keydir(self.model()));
            assert(self.live() =~= pre.live().remove(key@));
            let delta = self.pending().skip(pre.pending().len() as int);
            assert(delta =~= seq![
                DiskActionV::Append { generation: g, data: encode_command(cmd_v) },
            ]);
            let a0 = delta[0];
            assert(apply_actions(pre.disk(), delta) == apply_actions(
                apply_action(pre.disk(), a0),
                delta.skip(1),
            ));
            assert(delta.skip(1) =~= Seq::<DiskActionV>::empty());
            assert(self.disk() =~= apply_action(pre.disk(), a0));
            assert(pre.pending() =~= self.pending().subrange(0, pre.pending().len() as int));
        }
        let ghost mid = *self;
        match self.try_compaction() {
            Ok(()) => {},
            Err(e) => {
                return Err(e);
            },
        }
        self.writer.flush();
        proof {
            Self::lemma_account_trans(pre, mid, *self);
        }
        Ok(())
    }

    /// Sets `key` to `value`: records the pair in the keydir and appends a
    /// `Set` record. An overwrite counts toward the compaction threshold;
    /// the count resets there and, unless the generation counter is
    /// exhausted, a compaction runs. Otherwise the keydir now points the key
    /// at (current generation, prior offset), and the record sits at that
    /// offset of the current generation file.
    pub fn set(&mut self, key: String, value: String) -> (r: Result<(), KvStoreError>)
        requires
            old(self).wf(),
        ensures
            final(self).wf(),
            r is Ok,
            final(self).live() == old(self).live().insert(key@, value@),
            final(self).in_compaction() == old(self).in_compaction(),
            Self::actions_account(*old(self), *final(self)),
            final(self).compaction_count() < COMPACTION_THRESHOLD,
            ({
                let overwrite = old(self).live().dom().contains(key@);
                let counted: int = if overwrite {
                    old(self).compaction_count() + 1
                } else {
                    old(self).compaction_count() as int
                };
                let compacted = overwrite && counted == COMPACTION_THRESHOLD && old(
                    self,
                ).generation() < u64::MAX && !old(self).in_compaction();
                &&& final(self).compaction_count() == (if counted == COMPACTION_THRESHOLD {
                    0 as int
                } else {
                    counted
                })
                &&& !compacted ==> {
                    &&& final(self).generation() == old(self).generation()
                    &&& final(self).keydir_map() == old(self).keydir_map().insert(
                        key@,
                        (old(self).generation(), old(self).current_offset()),
                    )
                    &&& final(self).current_file() == old(self).current_file() + encode_command(
                        CommandV::Put { key: key@, value: value@ },
                    )
                    &&& final(self).current_offset() == old(self).current_offset()
                        + encode_command(CommandV::Put { key: key@, value: value@ }).len()
                    &&& final(self).disk() == apply_action(
                        old(self).disk(),
                        DiskActionV::Append {
                            generation: old(self).generation(),
                            data: encode_command(CommandV::Put { key: key@, value: value@ }),
                        },
                    )
                }
                &&& compacted ==> {
                    &&& final(self).generation() == old(self).generation() + 1
                    &&& final(self).disk().len() == 1
                    &&& final(self).disk()[0].0 == final(self).generation()
                }
            }),
    {
        let ghost pre = *self;
        proof {
            assert(Self::spec_keydir(pre.model()).dom() =~= pre.model().dom());
            assert(pre.live().dom() =~= pre.model().dom());
        }
        let update = self.keydir.contains_key(&key);
        self.set_internal(key, value);
        let ghost mid = *self;
        if update {
            match self.try_compaction() {
                Ok(()) => {},
                Err(e) => {
                    return Err(e);
                },
            }
        }
        self.writer.flush();
        proof {
            Self::lemma_account_trans(pre, mid, *self);
        }
        Ok(())
    }

    /// Counts one compaction candidate; at the threshold, resets the count
    /// and compacts (unless the generation counter is exhausted, or a
    /// compaction is already running).
    fn try_compaction(&mut self) -> (r: Result<(), KvStoreError>)
        requires
            old(self).wf(),
        ensures
            final(self).wf(),
            r is Ok,
            final(self).live() == old(self).live(),
            final(self).in_compaction() == old(self).in_compaction(),
            Self::actions_account(*old(self), *final(self)),
            final(self).compaction_cnt == (if old(self).compaction_cnt + 1
                == COMPACTION_THRESHOLD {
                0 as int
            } else {
                old(self).compaction_cnt + 1
            }),
            (old(self).compaction_cnt + 1 < COMPACTION_THRESHOLD || old(self).generation_cnt
                == u64::MAX || old(self).compaction_in_progress) ==> {
                &&& final(self).writer == old(self).writer
                &&& final(self).keydir == old(self).keydir
                &&& final(self).files == old(self).files
                &&& final(self).generation_cnt == old(self).generation_cnt
                &&& final(self).actions == old(self).actions
                &&& final(self).cur_records == old(self).cur_records
            },
            (old(self).compaction_cnt + 1 == COMPACTION_THRESHOLD && old(self).generation_cnt
                < u64::MAX && !old(self).compaction_in_progress) ==> {
                &&& final(self).generation_cnt == old(self).generation_cnt + 1
                &&& final(self).disk().len() == 1
                &&& final(self).disk()[0].0 == final(self).generation_cnt
            },
    {
        let ghost pre = *self;
        self.compaction_cnt = self.compaction_cnt + 1;
        proof {
            assert(self.model() == pre.model());
            assert(self.disk() == pre.disk());
        }
        if self.compaction_cnt >= COMPACTION_THRESHOLD {
            self.compaction_cnt = 0;
            if self.generation_cnt < u64::MAX {
                let ghost mid = *self;
                proof {
                    Self::lemma_account_refl(pre, mid);
                }
                match self.compaction() {
                    Ok(()) => {},
                    Err(e) => {
                        return Err(e);
                    },
                }
                proof {
                    Self::lemma_account_trans(pre, mid, *self);
                }
                return Ok(());
            }
        }
        proof {
            Self::lemma_account_refl(pre, *self);
        }
        Ok(())
    }

    /// Rewrites every live key into a fresh generation, then deletes all
    /// older generation files; live pairs are unchanged. A re-entrant call
    /// while one is in progress does nothing.
    pub fn compaction(&mut self) -> (r: Result<(), KvStoreError>)
        requires
            old(self).wf(),
            old(self).generation() < u64::MAX,
        ensures
            final(self).wf(),
            r is Ok,
            final(self).live() == old(self).live(),
            final(self).in_compaction() == old(self).in_compaction(),
            Self::actions_account(*old(self), *final(self)),
            final(self).compaction_count() == old(self).compaction_count(),
            old(self).in_compaction() ==> *final(self) == *old(self),
            !old(self).in_compaction() ==> final(self).generation() == old(self).generation() + 1
                && final(self).disk().len() == 1
                && final(self).disk()[0].0 == final(self).generation(),
    {
        let ghost pre0 = *self;
        if self.compaction_in_progress {
            proof {
                Self::lemma_account_refl(*self, *self);
            }
            return Ok(());
        }
        self.compaction_in_progress = true;

        // Snapshot the generations now on disk, ascending.
        let mut old_gens: Vec<u64> = Vec::new();
        let mut t: usize = 0;
        let nf = self.files.len();
        while t < nf
            invariant
                nf == self.files@.len(),
                t <= nf,
                old_gens@.len() == t,
                forall|p: int| 0 <= p < t ==> old_gens@[p] == self.files@[p].0,
            decreases nf - t,
        {
            old_gens.push(self.files[t].0);
            t = t + 1;
        }
        old_gens.push(self.generation_cnt);
        proof {
            assert(old_gens@.len() == pre0.disk().len());
            assert(forall|p: int| 0 <= p < old_gens@.len() ==> old_gens@[p] == pre0.disk()[p].0);
        }

        // Open the next generation as the new writer; seal the previous one.
        let old_gen = self.generation_cnt;
        self.generation_cnt = old_gen + 1;
        let ghost new_gen = self.generation_cnt;
        let mut prev_writer = SequentialWriter::new(Vec::new(), 0);
        core::mem::swap(&mut prev_writer, &mut self.writer);
        let prev_buf = prev_writer.into_inner();
        self.files.push((old_gen, prev_buf));
        self.actions.push(DiskAction::Create { generation: self.generation_cnt });
        proof {
            self.cur_records@ = Seq::empty();
        }
        proof {
            assert(self.sealed() =~= pre0.sealed().push((old_gen, pre0.writer.contents())));
            assert(self.sealed() =~= pre0.disk());
            lemma_replay_files_snoc(Map::empty(), pre0.disk(), new_gen, Seq::empty());
            lemma_replay_file_empty(replay_files(Map::empty(), pre0.disk()), new_gen as int, 0);
            assert(stream_of(Seq::<CommandV>::empty()) == Seq::<char>::empty());
            assert(self.disk() =~= pre0.disk().push((new_gen, Seq::empty())));
            assert(self.model() == pre0.model());
            // accounting for the Create action
            let delta = self.pending().skip(pre0.pending().len() as int);
            assert(delta =~= seq![DiskActionV::Create { generation: new_gen }]);
            assert(apply_actions(pre0.disk(), delta) == apply_actions(
                apply_action(pre0.disk(), delta[0]),
                delta.skip(1),
            ));
            assert(delta.skip(1) =~= Seq::<DiskActionV>::empty());
            assert(self.disk() =~= apply_action(pre0.disk(), delta[0]));
            assert(pre0.pending() =~= self.pending().subrange(0, pre0.pending().len() as int));
        }

        // Rewrite every live key into the new generation.
        proof {
            assert(Self::spec_keydir(self.model()).dom() =~= self.model().dom());
        }
        let keys = self.keydir.keys();
        let ghost dom0 = self.model().dom();
        let ghost live0 = self.live();
        let ghost m_base = self.model();
        let ghost sealed1 = self.sealed();
        let ghost mut r_map: Map<Seq<char>, SlotV> = Map::empty();
        proof {
            lemma_replay_file_empty(Map::empty(), new_gen as int, 0);
            assert(r_map == replay_file(
                Map::empty(),
                new_gen as int,
                0,
                stream_of(self.cur_records@),
            ));
            assert(self.model() =~= m_base.union_prefer_right(r_map));
            assert(live0.dom() =~= dom0);
        }
        let nk = keys.len();
        let mut ki: usize = 0;
        while ki < nk
            invariant
                nk == keys@.len(),
                ki <= nk,
                self.wf(),
                self.generation_cnt == new_gen,
                self.compaction_cnt == pre0.compaction_cnt,
                self.compaction_in_progress == true,
                self.sealed() == sealed1,
                self.model().dom() =~= dom0,
                self.live() =~= live0,
                live0.dom() =~= dom0,
                forall|a: int, b: int| 0 <= a < b < nk ==> keys@[a]@ != keys@[b]@,
                forall|a: int| 0 <= a < nk ==> dom0.contains(keys@[a]@),
                forall|k: Seq<char>|
                    dom0.contains(k) ==> exists|a: int| 0 <= a < nk && keys@[a]@ == k,
                r_map == replay_file(
                    Map::empty(),
                    new_gen as int,
                    0,
                    stream_of(self.cur_records@),
                ),
                forall|k: Seq<char>| #[trigger]
                    r_map.dom().contains(k) <==> exists|a: int| 0 <= a < ki && keys@[a]@ == k,
                forall|k: Seq<char>| #[trigger]
                    r_map.dom().contains(k) ==> r_map[k].val == live0[k],
                self.model() =~= m_base.union_prefer_right(r_map),
                m_base.dom() =~= dom0,
                Self::actions_account(pre0, *self),
            decreases nk - ki,
        {
            let key_i = keys[ki].clone();
            let ghost k_v = key_i@;
            proof {
                assert(dom0.contains(k_v));
                assert(self.live().dom() =~= self.model().dom());
            }
            let value_i = match self.get(key_i) {
                Ok(Some(v)) => v,
                Ok(None) => {
                    return Err(KvStoreError::InvalidFileHandler);
                },
                Err(e) => {
                    return Err(e);
                },
            };
            proof {
                assert(value_i@ == live0[k_v]);
            }
            let key_again = keys[ki].clone();
            let ghost before = *self;
            let ghost records_before = self.cur_records@;
            let ghost off_before = self.writer.written();
            self.set_internal(key_again, value_i);
            proof {
                let cmd_v = CommandV::Put { key: k_v, value: live0[k_v] };
                let slot = SlotV { gen: new_gen as int, off: off_before as int, val: live0[k_v] };
                lemma_stream_of_snoc(records_before, cmd_v);
                lemma_replay_file_append(Map::empty(), new_gen as int, 0, records_before, cmd_v);
                assert(off_before as int == stream_of(records_before).len());
                r_map = r_map.insert(k_v, slot);
                assert(r_map == replay_file(
                    Map::empty(),
                    new_gen as int,
                    0,
                    stream_of(self.cur_records@),
                ));
                assert(self.model() =~= m_base.union_prefer_right(r_map));
                assert(self.model().dom() =~= dom0);
                assert(self.live() =~= live0);
                Self::lemma_account_trans(pre0, before, *self);
                assert(forall|k: Seq<char>| #[trigger]
                    r_map.dom().contains(k) <==> exists|a: int| 0 <= a < ki + 1 && keys@[a]@
                        == k) by {
                    assert(keys@[ki as int]@ == k_v);
                };
            }
            ki = ki + 1;
        }
        proof {
            assert(self.model() =~= r_map) by {
                assert forall|k: Seq<char>| true implies (self.model().dom().contains(k)
                    <==> r_map.dom().contains(k)) by {
                    if r_map.dom().contains(k) {
                        assert(dom0.contains(k));
                    }
                    if self.model().dom().contains(k) {
                        assert(dom0.contains(k));
                        let a = choose|a: int| 0 <= a < nk && keys@[a]@ == k;
                        assert(r_map.dom().contains(k));
                    }
                };
            };
        }

        // Delete every generation that preceded the new one.
        let ghost bd = *self;
        let ghost stream_final = stream_of(self.cur_records@);
        let mut di: usize = 0;
        let ng = old_gens.len();
        while di < ng
            invariant
                ng == old_gens@.len(),
                di <= ng,
                bd.sealed().len() == ng,
                forall|p: int| 0 <= p < ng ==> bd.sealed()[p].0 == old_gens@[p],
                forall|a: int, b: int| 0 <= a < b < ng ==> old_gens@[a] < old_gens@[b],
                forall|p: int| 0 <= p < ng ==> old_gens@[p] < new_gen,
                self.sealed() =~= bd.sealed().skip(di as int),
                self.writer == bd.writer,
                self.keydir == bd.keydir,
                self.cur_records == bd.cur_records,
                self.generation_cnt == new_gen,
                self.compaction_cnt == bd.compaction_cnt,
                self.compaction_in_progress == true,
                Self::actions_account(pre0, *self),
            decreases ng - di,
        {
            let g = old_gens[di];
            let ghost before = *self;
            proof {
                assert(self.sealed().len() == bd.sealed().len() - di);
                assert(self.files@.len() == self.sealed().len());
            }
            self.files.remove(0);
            self.actions.push(DiskAction::Delete { generation: g });
            proof {
                assert(self.sealed() =~= before.sealed().skip(1));
                assert(self.pending() =~= before.pending().push(
                    DiskActionV::Delete { generation: g },
                ));
                assert(bd.sealed().skip(di as int).skip(1) =~= bd.sealed().skip(di + 1));
                let delta = self.pending().skip(before.pending().len() as int);
                assert(delta =~= seq![DiskActionV::Delete { generation: g }]);
                assert(before.disk()[0] == bd.sealed()[di as int]);
                assert forall|p: int| 1 <= p < before.disk().len() implies before.disk()[p].0
                    != g by {
                    if p < before.sealed().len() {
                        assert(before.disk()[p] == before.sealed()[p]);
                        assert(before.sealed()[p] == bd.sealed()[di + p]);
                        assert(bd.sealed()[di + p].0 == old_gens@[di + p]);
                        assert(old_gens@[di as int] < old_gens@[di + p]);
                    } else {
                        assert(before.disk()[p].0 == new_gen);
                        assert(old_gens@[di as int] < new_gen);
                    }
                };
                lemma_filter_front(before.disk(), g);
                assert(apply_action(before.disk(), delta[0]) == before.disk().skip(1));
                assert(before.disk().skip(1) =~= self.disk());
                assert(apply_actions(before.disk(), delta) == apply_actions(
                    apply_action(before.disk(), delta[0]),
                    delta.skip(1),
                ));
                assert(delta.skip(1) =~= Seq::<DiskActionV>::empty());
                assert(before.pending() =~= self.pending().subrange(
                    0,
                    before.pending().len() as int,
                ));
                Self::lemma_account_trans(pre0, before, *self);
            }
            di = di + 1;
        }
        self.compaction_in_progress = false;
        proof {
            assert(self.sealed() =~= Seq::<(u64, Seq<char>)>::empty());
            assert(self.disk() =~= Seq::<(u64, Seq<char>)>::empty().push(
                (new_gen, stream_final),
            ));
            lemma_replay_files_snoc(
                Map::empty(),
                Seq::<(u64, Seq<char>)>::empty(),
                new_gen,
                stream_final,
            );
            assert(self.model() == replay_file(Map::empty(), new_gen as int, 0, stream_final));
            assert(self.model() == r_map);
            assert(self.keydir@ == Self::spec_keydir(r_map));
            assert(self.live() =~= live0) by {
                assert(Self::live_of(r_map).dom() =~= r_map.dom());
            };
            let ghost post = *self;
            assert(Self::actions_account(pre0, post));
        }
        Ok(())
    }

    /// The in-memory index, as a map from key to (generation, offset).
    pub closed spec fn keydir_map(&self) -> Map<Seq<char>, (u64, u64)> {
        self.keydir@
    }

    /// Replay agreement: in a well-formed store, replaying the generation
    /// files as they stand, from an empty index, yields exactly the
    /// in-memory keydir. Every operation keeps stores well-formed, so this
    /// holds after any sequence of operations.
    pub proof fn lemma_keydir_is_replay(s: &KvStore)
        requires
            s.wf(),
        ensures
            s.keydir_map() == KvStore::spec_keydir(KvStore::model_of(s.disk())),
    {
    }

    /// Hands the queued disk actions to the mirror and empties the queue.
    pub fn take_actions(&mut self) -> (r: Vec<DiskAction>)
        ensures
            r@.map_values(|a: DiskAction| a@) == old(self).pending(),
            final(self).pending() == Seq::<DiskActionV>::empty(),
            final(self).wf() == old(self).wf(),
            final(self).live() == old(self).live(),
            final(self).disk() == old(self).disk(),
            final(self).generation() == old(self).generation(),
            final(self).in_compaction() == old(self).in_compaction(),
    {
        let mut out: Vec<DiskAction> = Vec::new();
        core::mem::swap(&mut out, &mut self.actions);
        proof {
            assert(self.pending() =~= Seq::<DiskActionV>::empty());
        }
        out
    }

    /// The current generation number.
    pub fn generation_cnt(&self) -> (r: u64)
        ensures
            r == self.generation(),
    {
        self.generation_cnt
    }

    /// Whether `key` is live, read from the keydir alone.
    pub fn contains_key(&self, key: &String) -> (r: bool)
        requires
            self.wf(),
        ensures
            r == self.live().dom().contains(key@),
    {
        proof {
            assert(Self::spec_keydir(self.model()).dom() =~= self.model().dom());
            assert(self.live().dom() =~= self.model().dom());
        }
        self.keydir.contains_key(key)
    }

    /// The in-memory index, for callers that only ask what is live.
    pub fn keydir(&self) -> (r: &Keydir)
        ensures
            self.wf() ==> r.wf() && r@.dom() == self.live().dom(),
    {
        proof {
            if self.wf() {
                assert(Self::spec_keydir(self.model()).dom() =~= self.model().dom());
                assert(self.live().dom() =~= self.model().dom());
            }
        }
        &self.keydir
    }
}

} // verus!
