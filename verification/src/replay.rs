//! Replay: the meaning of a set of generation files, obtained by decoding
//! each file in ascending generation order and applying its records.

use vstd::prelude::*;

verus! {

use crate::codec::encode_command;
use crate::codec::parse_command;
use crate::codec::lemma_parse_command_progress;
use crate::codec::lemma_parse_encode_command;
use crate::log::CommandV;

/// Where the newest `Set` record for a key lives, and the value it carries.
pub struct SlotV {
    pub gen: int,
    pub off: int,
    pub val: Seq<char>,
}

/// One record applied to the replayed index.
pub open spec fn apply_command(
    m: Map<Seq<char>, SlotV>,
    gen: int,
    off: int,
    c: CommandV,
) -> Map<Seq<char>, SlotV> {
    match c {
        CommandV::Put { key, value } => m.insert(key, SlotV { gen, off, val: value }),
        CommandV::Remove { key } => m.remove(key),
    }
}

/// Replays the suffix `s` of a generation file, whose first character sits
/// at offset `off` of the file. Stops at the first undecodable point.
pub open spec fn replay_file(
    m: Map<Seq<char>, SlotV>,
    gen: int,
    off: int,
    s: Seq<char>,
) -> Map<Seq<char>, SlotV>
    decreases s.len(),
{
    match parse_command(s) {
        Some((c, n)) => if 1 <= n <= s.len() {
            replay_file(apply_command(m, gen, off, c), gen, off + n, s.skip(n))
        } else {
            m
        },
        None => m,
    }
}

/// Replays a list of generation files in order.
pub open spec fn replay_files(
    m: Map<Seq<char>, SlotV>,
    files: Seq<(u64, Seq<char>)>,
) -> Map<Seq<char>, SlotV>
    decreases files.len(),
{
    if files.len() == 0 {
        m
    } else {
        replay_files(replay_file(m, files[0].0 as int, 0, files[0].1), files.skip(1))
    }
}

/// The contents of a file that holds exactly these records, in order.
pub open spec fn stream_of(records: Seq<CommandV>) -> Seq<char>
    decreases records.len(),
{
    if records.len() == 0 {
        Seq::empty()
    } else {
        encode_command(records[0]) + stream_of(records.skip(1))
    }
}

/// One more record extends the stream at its end.
pub proof fn lemma_stream_of_snoc(records: Seq<CommandV>, c: CommandV)
    ensures
        stream_of(records.push(c)) == stream_of(records) + encode_command(c),
    decreases records.len(),
{
    if records.len() == 0 {
        assert(records.push(c)[0] == c);
        assert(records.push(c).skip(1) =~= Seq::<CommandV>::empty());
        assert(stream_of(records.push(c)) == encode_command(c) + stream_of(
            Seq::<CommandV>::empty(),
        ));
        assert(stream_of(Seq::<CommandV>::empty()) == Seq::<char>::empty());
        assert(encode_command(c) + Seq::<char>::empty() =~= encode_command(c));
        assert(Seq::<char>::empty() + encode_command(c) =~= encode_command(c));
    } else {
        lemma_stream_of_snoc(records.skip(1), c);
        assert(records.push(c).skip(1) =~= records.skip(1).push(c));
        assert(records.push(c)[0] == records[0]);
        assert(encode_command(records[0]) + (stream_of(records.skip(1)) + encode_command(c)) =~= (
        encode_command(records[0]) + stream_of(records.skip(1))) + encode_command(c));
    }
}

/// The empty file replays to the index it was given.
pub proof fn lemma_replay_file_empty(m: Map<Seq<char>, SlotV>, gen: int, off: int)
    ensures
        replay_file(m, gen, off, Seq::empty()) == m,
{
}

/// Appending one encoded record to a well-formed stream applies exactly that
/// record, at the offset where the stream ended.
#[verifier::rlimit(100)]
#[verifier::spinoff_prover]
pub proof fn lemma_replay_file_append(
    m: Map<Seq<char>, SlotV>,
    gen: int,
    off: int,
    records: Seq<CommandV>,
    c: CommandV,
)
    ensures
        replay_file(m, gen, off, stream_of(records) + encode_command(c)) == apply_command(
            replay_file(m, gen, off, stream_of(records)),
            gen,
            off + stream_of(records).len(),
            c,
        ),
    decreases records.len(),
{
    if records.len() == 0 {
        let e = encode_command(c);
        assert(stream_of(records) + e =~= e + Seq::<char>::empty());
        lemma_parse_encode_command(c, Seq::empty());
        lemma_parse_command_progress(e + Seq::<char>::empty());
        let s = stream_of(records) + e;
        let n = e.len() as int;
        assert(parse_command(s) == Some::<(CommandV, int)>((c, n)));
        assert(s.skip(n) =~= Seq::<char>::empty());
        lemma_replay_file_empty(apply_command(m, gen, off, c), gen, off + n);
    } else {
        let r0 = records[0];
        let rs = records.skip(1);
        let e0 = encode_command(r0);
        let s_old = stream_of(records);
        let s_new = s_old + encode_command(c);
        let rest_new = stream_of(rs) + encode_command(c);
        let rest_old = stream_of(rs);
        assert(s_new =~= e0 + rest_new);
        assert(s_old =~= e0 + rest_old);
        lemma_parse_encode_command(r0, rest_new);
        lemma_parse_encode_command(r0, rest_old);
        let n0 = e0.len() as int;
        lemma_parse_command_progress(s_new);
        lemma_parse_command_progress(s_old);
        let m1 = apply_command(m, gen, off, r0);
        assert(s_new.skip(n0) =~= rest_new);
        assert(s_old.skip(n0) =~= rest_old);
        lemma_replay_file_append(m1, gen, off + n0, rs, c);
        assert(off + stream_of(records).len() == off + n0 + stream_of(rs).len());
    }
}

/// Adding a file at the end replays it last.
pub proof fn lemma_replay_files_snoc(
    m: Map<Seq<char>, SlotV>,
    files: Seq<(u64, Seq<char>)>,
    g: u64,
    content: Seq<char>,
)
    ensures
        replay_files(m, files.push((g, content))) == replay_file(
            replay_files(m, files),
            g as int,
            0,
            content,
        ),
    decreases files.len(),
{
    let pushed = files.push((g, content));
    if files.len() == 0 {
        assert(pushed[0] == (g, content));
        assert(pushed.skip(1) =~= Seq::<(u64, Seq<char>)>::empty());
        assert(replay_files(m, pushed) == replay_files(
            replay_file(m, g as int, 0, content),
            pushed.skip(1),
        ));
        assert(replay_files(replay_file(m, g as int, 0, content), pushed.skip(1)) == replay_file(
            m,
            g as int,
            0,
            content,
        ));
        assert(replay_files(m, files) == m);
    } else {
        let m1 = replay_file(m, files[0].0 as int, 0, files[0].1);
        lemma_replay_files_snoc(m1, files.skip(1), g, content);
        assert(pushed.skip(1) =~= files.skip(1).push((g, content)));
        assert(pushed[0] == files[0]);
        assert(replay_files(m, pushed) == replay_files(m1, pushed.skip(1)));
        assert(replay_files(m, files) == replay_files(m1, files.skip(1)));
    }
}

/// A slot points at a real `Set` record for its key inside one of the given
/// files.
pub open spec fn slot_valid(k: Seq<char>, slot: SlotV, files: Seq<(u64, Seq<char>)>) -> bool {
    exists|i: int|
        0 <= i < files.len() && files[i].0 as int == slot.gen && 0 <= slot.off <= files[i].1.len()
            && (parse_command(files[i].1.skip(slot.off)) matches Some(p) && p.0 == (
        CommandV::Put { key: k, value: slot.val }))
}

/// Replaying a file only adds slots that point at real records of that file.
proof fn lemma_replay_file_valid(
    m: Map<Seq<char>, SlotV>,
    off: int,
    files: Seq<(u64, Seq<char>)>,
    idx: int,
)
    requires
        0 <= idx < files.len(),
        0 <= off <= files[idx].1.len(),
        forall|k: Seq<char>| #[trigger]
            m.dom().contains(k) ==> slot_valid(k, m[k], files),
    ensures
        forall|k: Seq<char>| #[trigger]
            replay_file(m, files[idx].0 as int, off, files[idx].1.skip(off)).dom().contains(k)
                ==> slot_valid(
                k,
                replay_file(m, files[idx].0 as int, off, files[idx].1.skip(off))[k],
                files,
            ),
    decreases files[idx].1.len() - off,
{
    let gen = files[idx].0 as int;
    let content = files[idx].1;
    let s = content.skip(off);
    match parse_command(s) {
        Some((c, n)) => {
            if 1 <= n <= s.len() {
                let m1 = apply_command(m, gen, off, c);
                assert(replay_file(m, gen, off, s) == replay_file(m1, gen, off + n, s.skip(n)));
                assert forall|k: Seq<char>| #[trigger] m1.dom().contains(k) implies slot_valid(
                    k,
                    m1[k],
                    files,
                ) by {
                    match c {
                        CommandV::Put { key, value } => {
                            if k == key {
                                assert(files[idx].0 as int == gen && 0 <= off <= files[idx].1.len()
                                    && (parse_command(files[idx].1.skip(off)) matches Some(p)
                                    && p.0 == (CommandV::Put { key: k, value: value })));
                            }
                        },
                        CommandV::Remove { .. } => {},
                    }
                }
                assert(content.skip(off + n) =~= s.skip(n));
                lemma_replay_file_valid(m1, off + n, files, idx);
            } else {
                assert(replay_file(m, gen, off, s) == m);
            }
        },
        None => {
            assert(replay_file(m, gen, off, s) == m);
        },
    }
}

/// Replaying a list of files only yields slots that point at real records.
proof fn lemma_replay_files_valid(m: Map<Seq<char>, SlotV>, files: Seq<(u64, Seq<char>)>, j: int)
    requires
        0 <= j <= files.len(),
        forall|k: Seq<char>| #[trigger]
            m.dom().contains(k) ==> slot_valid(k, m[k], files),
    ensures
        forall|k: Seq<char>| #[trigger]
            replay_files(m, files.skip(j)).dom().contains(k) ==> slot_valid(
                k,
                replay_files(m, files.skip(j))[k],
                files,
            ),
    decreases files.len() - j,
{
    if j == files.len() {
        assert(files.skip(j) =~= Seq::<(u64, Seq<char>)>::empty());
        assert(replay_files(m, files.skip(j)) == m);
    } else {
        let suffix = files.skip(j);
        assert(suffix[0] == files[j]);
        assert(files[j].1.skip(0) =~= files[j].1);
        lemma_replay_file_valid(m, 0, files, j);
        let m1 = replay_file(m, files[j].0 as int, 0, files[j].1);
        lemma_replay_files_valid(m1, files, j + 1);
        assert(files.skip(j).skip(1) =~= files.skip(j + 1));
        assert(replay_files(m, suffix) == replay_files(m1, suffix.skip(1)));
    }
}

/// Every slot of a replayed index points at a real `Set` record for its key.
pub proof fn lemma_replay_valid(files: Seq<(u64, Seq<char>)>)
    ensures
        forall|k: Seq<char>| #[trigger]
            replay_files(Map::empty(), files).dom().contains(k) ==> slot_valid(
                k,
                replay_files(Map::empty(), files)[k],
                files,
            ),
{
    lemma_replay_files_valid(Map::empty(), files, 0);
    assert(files.skip(0) =~= files);
}

} // verus!
