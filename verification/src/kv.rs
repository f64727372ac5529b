//! The storage engine.
//!
//! The store keeps a faithful image of its on-disk log: the sealed segments
//! and the active segment's contents, in ascending segment-number order. Its
//! abstract state — the map from live keys to values — is carried as a ghost
//! field, and the central invariant [`KvStore::wf`] ties the three layers
//! together: replaying the log yields exactly the abstract map, and every
//! index entry points at the character range holding the live `SET` record of
//! its key. A thin host layer persists the image and hands it back to
//! [`KvStore::open`], which is verified to rebuild the same state.

use vstd::prelude::*;
use vstd::hash_map::StringHashMap;
use vstd::string::*;

use crate::codec::{
    all_digits, dec_len, decode_record, digit_val, enc_min, encode_command, is_digit,
    lemma_dec_len_lower, lemma_encode_parses, lemma_min_dec, lemma_min_dec_canon,
    lemma_parse_agree, lemma_parse_end, lemma_pow10_20, lemma_pow10_mono, lemma_spec_encode_len,
    min_dec, parse_record, pow10, spec_encode, wf_command,
};
use crate::command::{Command, CommandV};
use crate::errors::KVStoreError;

verus! {

/// The waste threshold: when more characters than this are estimated dead,
/// compaction runs.
pub const MAX_USELESS_SIZE: u64 = 1024;

/// The location of one record: a contiguous character range within one
/// segment that decodes to exactly that record.
#[derive(Clone, Copy, Debug)]
pub struct CommandPosition {
    /// The offset of the record's first character in its segment.
    pub offset: u64,
    /// The number of characters the record occupies.
    pub length: u64,
    /// The number of the segment holding the record.
    pub file_number: u64,
}

/// One sealed (read-only) segment of the log.
pub struct Segment {
    /// The segment number; higher numbers hold strictly newer data.
    pub number: u64,
    /// The segment's contents: a concatenation of encoded records.
    pub contents: String,
}

impl View for Segment {
    type V = (u64, Seq<char>);

    open spec fn view(&self) -> (u64, Seq<char>) {
        (self.number, self.contents@)
    }
}

/// One directory entry handed to [`KvStore::open`]: a file name and the
/// file's contents.
pub struct DirFile {
    /// The file's name within the directory.
    pub name: String,
    /// The file's contents.
    pub contents: String,
}

impl View for DirFile {
    type V = (Seq<char>, Seq<char>);

    open spec fn view(&self) -> (Seq<char>, Seq<char>) {
        (self.name@, self.contents@)
    }
}

/// The active segment's write handle: its contents so far and a cached write
/// position, so appending never asks anything outside for the offset.
pub struct BufWriterWithPosition {
    /// The character offset of the next append.
    pub position: u64,
    /// The active segment's contents.
    pub contents: String,
}

impl BufWriterWithPosition {
    /// Opens a writer on a segment with the given contents, positioned at its
    /// end.
    pub fn new(contents: String) -> (w: Self)
        ensures
            w.contents@ == contents@,
            w.position == contents@.len(),
    {
        let position = contents.as_str().unicode_len() as u64;
        BufWriterWithPosition { position, contents }
    }

    /// The cached offset of the next append.
    pub fn get_position(&self) -> (r: u64)
        ensures
            r == self.position,
    {
        self.position
    }

    /// Appends `data` and advances the cached position past it.
    pub fn write(&mut self, data: &str)
        ensures
            final(self).contents@ == old(self).contents@ + data@,
            final(self).position == final(self).contents@.len(),
    {
        self.contents.append(data);
        self.position = self.contents.as_str().unicode_len() as u64;
    }
}

/// One mutation applied to the abstract map.
pub open spec fn apply_rec(
    m: Map<Seq<char>, Seq<char>>,
    c: CommandV,
) -> Map<Seq<char>, Seq<char>> {
    match c {
        CommandV::SetV(k, v) => m.insert(k, v),
        CommandV::RmV(k) => m.remove(k),
    }
}

/// Replays the records of one segment from `off` on, starting from the map
/// `m`; `None` where the tail is not a whole number of records.
pub open spec fn replay_from(
    m: Map<Seq<char>, Seq<char>>,
    s: Seq<char>,
    off: int,
) -> Option<Map<Seq<char>, Seq<char>>>
    decreases s.len() - off,
{
    if off == s.len() {
        Some(m)
    } else if !(0 <= off < s.len()) {
        None
    } else {
        match parse_record(s, off) {
            Some((c, end)) => if off < end <= s.len() {
                replay_from(apply_rec(m, c), s, end)
            } else {
                None
            },
            None => None,
        }
    }
}

/// Replays a sequence of segments in order, starting from the map `m`.
pub open spec fn replay_disk(
    m: Map<Seq<char>, Seq<char>>,
    d: Seq<Seq<char>>,
) -> Option<Map<Seq<char>, Seq<char>>>
    decreases d.len(),
{
    if d.len() == 0 {
        Some(m)
    } else {
        match replay_disk(m, d.drop_last()) {
            Some(mid) => replay_from(mid, d.last(), 0),
            None => None,
        }
    }
}

/// One segment's replay from `off` on, carrying also each live record's
/// stored length and the waste accrued so far: a superseding `SET` wastes
/// the record it replaces, a `RM` wastes the record it evicts and itself.
/// The sum saturates exactly as the counter does.
#[verifier::opaque]
pub open spec fn replay_waste_from(
    lm: Map<Seq<char>, nat>,
    w: int,
    s: Seq<char>,
    off: int,
) -> Option<(Map<Seq<char>, nat>, int)>
    decreases s.len() - off,
{
    if off == s.len() {
        Some((lm, w))
    } else if !(0 <= off < s.len()) {
        None
    } else {
        match parse_record(s, off) {
            Some((c, end)) => if off < end <= s.len() {
                match c {
                    CommandV::SetV(k, _) => replay_waste_from(
                        lm.insert(k, (end - off) as nat),
                        sat64(
                            w + if lm.dom().contains(k) {
                                lm[k] as int
                            } else {
                                0
                            },
                        ),
                        s,
                        end,
                    ),
                    CommandV::RmV(k) => replay_waste_from(
                        lm.remove(k),
                        sat64(
                            sat64(
                                w + if lm.dom().contains(k) {
                                    lm[k] as int
                                } else {
                                    0
                                },
                            ) + (end - off),
                        ),
                        s,
                        end,
                    ),
                }
            } else {
                None
            },
            None => None,
        }
    }
}

/// The waste accrual over a sequence of segments, in order.
#[verifier::opaque]
pub open spec fn replay_waste_disk(
    lm: Map<Seq<char>, nat>,
    w: int,
    d: Seq<Seq<char>>,
) -> Option<(Map<Seq<char>, nat>, int)>
    decreases d.len(),
{
    if d.len() == 0 {
        Some((lm, w))
    } else {
        match replay_waste_disk(lm, w, d.drop_last()) {
            Some(p) => replay_waste_from(p.0, p.1, d.last(), 0),
            None => None,
        }
    }
}

/// The waste counter recovery computes for a directory's segments.
pub open spec fn recovered_waste(d: Seq<Seq<char>>) -> int {
    match replay_waste_disk(Map::empty(), 0, d) {
        Some(p) => p.1,
        None => 0,
    }
}

/// One segment's replay from `off` on, producing for each live key the
/// exact location of its latest `SET` record: a later `SET` overwrites the
/// stored location, a `RM` drops it.
#[verifier::opaque]
pub open spec fn replay_pos_from(
    pm: Map<Seq<char>, CommandPosition>,
    n: u64,
    s: Seq<char>,
    off: int,
) -> Option<Map<Seq<char>, CommandPosition>>
    decreases s.len() - off,
{
    if off == s.len() {
        Some(pm)
    } else if !(0 <= off < s.len()) {
        None
    } else {
        match parse_record(s, off) {
            Some((c, end)) => if off < end <= s.len() {
                match c {
                    CommandV::SetV(k, _) => replay_pos_from(
                        pm.insert(
                            k,
                            (CommandPosition {
                                offset: off as u64,
                                length: (end - off) as u64,
                                file_number: n,
                            }),
                        ),
                        n,
                        s,
                        end,
                    ),
                    CommandV::RmV(k) => replay_pos_from(pm.remove(k), n, s, end),
                }
            } else {
                None
            },
            None => None,
        }
    }
}

/// The latest live locations over a sequence of numbered segments, in order.
#[verifier::opaque]
pub open spec fn replay_pos_disk(
    pm: Map<Seq<char>, CommandPosition>,
    d: Seq<(u64, Seq<char>)>,
) -> Option<Map<Seq<char>, CommandPosition>>
    decreases d.len(),
{
    if d.len() == 0 {
        Some(pm)
    } else {
        match replay_pos_disk(pm, d.drop_last()) {
            Some(p) => replay_pos_from(p, d.last().0, d.last().1, 0),
            None => None,
        }
    }
}

/// The contents of the segment numbered `n`, searched newest first.
pub open spec fn seg_lookup(d: Seq<(u64, Seq<char>)>, n: u64) -> Option<Seq<char>>
    decreases d.len(),
{
    if d.len() == 0 {
        None
    } else if d.last().0 == n {
        Some(d.last().1)
    } else {
        seg_lookup(d.drop_last(), n)
    }
}

/// Whether position `p` points, within the segment set `d`, at exactly the
/// record `SET(k, v)`.
pub open spec fn pos_ok(d: Seq<(u64, Seq<char>)>, p: CommandPosition, k: Seq<char>, v: Seq<char>) -> bool {
    match seg_lookup(d, p.file_number) {
        Some(s) => parse_record(s, p.offset as int) == Some(
            (CommandV::SetV(k, v), p.offset + p.length),
        ),
        None => false,
    }
}

/// The name of the segment file numbered `n`.
pub open spec fn spec_file_name(n: u64) -> Seq<char> {
    "data_"@ + min_dec(n as nat) + ".txt"@
}

/// The segment number a file name denotes, or `None` for any file that is
/// not a segment of this store. Only canonical names match: `data_`, decimal
/// digits with no leading zero, `.txt`.
pub open spec fn spec_parse_name(s: Seq<char>) -> Option<u64> {
    if s.len() >= 10 && s.subrange(0, 5) == "data_"@ && s.subrange(s.len() - 4, s.len() as int)
        == ".txt"@ {
        let mid = s.subrange(5, s.len() - 4);
        if all_digits(mid) && (mid[0] != '0' || mid.len() == 1) && dec_len(mid) <= u64::MAX {
            Some(dec_len(mid) as u64)
        } else {
            None
        }
    } else {
        None
    }
}

/// The segments among a directory's files, in directory order: each file
/// whose name is a canonical segment name, as its number and contents.
pub open spec fn parsed_segs(files: Seq<(Seq<char>, Seq<char>)>) -> Seq<(u64, Seq<char>)>
    decreases files.len(),
{
    if files.len() == 0 {
        Seq::empty()
    } else {
        let rest = parsed_segs(files.drop_last());
        match spec_parse_name(files.last().0) {
            Some(n) => rest.push((n, files.last().1)),
            None => rest,
        }
    }
}

/// Inserts a segment into a number-sorted sequence, keeping it sorted.
pub open spec fn insert_by_num(s: Seq<(u64, Seq<char>)>, e: (u64, Seq<char>)) -> Seq<
    (u64, Seq<char>),
>
    decreases s.len(),
{
    if s.len() == 0 {
        seq![e]
    } else if e.0 >= s.last().0 {
        s.push(e)
    } else {
        insert_by_num(s.drop_last(), e).push(s.last())
    }
}

/// Sorts segments by number, ascending; equal numbers keep their order.
pub open spec fn sort_by_num(s: Seq<(u64, Seq<char>)>) -> Seq<(u64, Seq<char>)>
    decreases s.len(),
{
    if s.len() == 0 {
        Seq::empty()
    } else {
        insert_by_num(sort_by_num(s.drop_last()), s.last())
    }
}

/// Whether segment numbers are strictly ascending.
pub open spec fn sorted_strict(s: Seq<(u64, Seq<char>)>) -> bool {
    forall|i: int, j: int| 0 <= i < j < s.len() ==> s[i].0 < s[j].0
}

/// The contents of each segment, in order.
pub open spec fn seg_contents(s: Seq<(u64, Seq<char>)>) -> Seq<Seq<char>> {
    s.map(|i: int, f: (u64, Seq<char>)| f.1)
}

/// Whether `name` is a file of the alternate backend: finding one means the
/// directory was initialized by the other engine and must not be opened here.
pub open spec fn foreign_marker(name: Seq<char>) -> bool {
    name == "db"@ || name == "conf"@
}

/// Whether some file of the directory belongs to the alternate backend.
pub open spec fn has_foreign(files: Seq<(Seq<char>, Seq<char>)>) -> bool {
    exists|i: int| 0 <= i < files.len() && foreign_marker(#[trigger] files[i].0)
}

/// The store.
pub struct KvStore {
    /// Maps each live key to the location of its latest `SET` record.
    pub index: StringHashMap<CommandPosition>,
    /// The index's keys, for iteration during compaction; no duplicates.
    pub keys: Vec<String>,
    /// The sealed segments, ascending by number; the replay sources and the
    /// cached readers in one.
    pub sealed: Vec<Segment>,
    /// The write handle on the active segment.
    pub current_writer: BufWriterWithPosition,
    /// The active segment's number: the highest that exists.
    pub current_file_number: u64,
    /// Estimated characters of superseded records on disk.
    pub useless_size: u64,
    /// The abstract state: the map from live keys to values.
    pub model: Ghost<Map<Seq<char>, Seq<char>>>,
}

impl View for KvStore {
    type V = Map<Seq<char>, Seq<char>>;

    open spec fn view(&self) -> Map<Seq<char>, Seq<char>> {
        self.model@
    }
}

impl KvStore {
    /// The store's segment set: sealed segments then the active one, each as
    /// its number and contents. This is the directory image.
    pub open spec fn disk(&self) -> Seq<(u64, Seq<char>)> {
        self.sealed@.map(|i: int, s: Segment| s@).push(
            (self.current_file_number, self.current_writer.contents@),
        )
    }

    /// The store's invariant.
    pub open spec fn wf(&self) -> bool {
        &&& self.current_writer.position == self.current_writer.contents@.len()
        &&& sorted_strict(self.disk())
        &&& self.index@.dom() =~= self.model@.dom()
        &&& (forall|i: int|
            0 <= i < self.keys@.len() ==> self.index@.dom().contains((#[trigger] self.keys@[i])@))
        &&& (forall|k: Seq<char>|
            #[trigger] self.index@.dom().contains(k) ==> exists|i: int|
                0 <= i < self.keys@.len() && (#[trigger] self.keys@[i])@ == k)
        &&& (forall|i: int, j: int|
            0 <= i < j < self.keys@.len() ==> self.keys@[i]@ != self.keys@[j]@)
        &&& (forall|k: Seq<char>|
            #[trigger] self.index@.dom().contains(k) ==> pos_ok(
                self.disk(),
                self.index@[k],
                k,
                self.model@[k],
            ))
        &&& replay_disk(Map::empty(), seg_contents(self.disk())) == Some(self.model@)
        &&& replay_pos_disk(Map::empty(), self.disk()) == Some(self.index@)
    }
}

/// A record's characters, appended whole to a stream whose replay succeeds,
/// change the replay's result by exactly that record.
proof fn lemma_replay_append_parsed(
    m: Map<Seq<char>, Seq<char>>,
    s: Seq<char>,
    piece: Seq<char>,
    c: CommandV,
    off: int,
)
    requires
        0 <= off <= s.len(),
        replay_from(m, s, off) is Some,
        parse_record(s + piece, s.len() as int) == Some((c, (s + piece).len() as int)),
    ensures
        replay_from(m, s + piece, off) == Some(
            apply_rec(replay_from(m, s, off).unwrap(), c),
        ),
    decreases s.len() - off,
{
    let t = s + piece;
    if off == s.len() {
        assert(replay_from(m, s, off) == Some(m));
        assert(parse_record(t, off) == Some((c, t.len() as int)));
        lemma_parse_end(t, off);
        assert(replay_from(apply_rec(m, c), t, t.len() as int) == Some(apply_rec(m, c)));
    } else {
        let (c0, end) = parse_record(s, off).unwrap();
        lemma_parse_end(s, off);
        assert(t.subrange(off, end) =~= s.subrange(off, end)) by {
            assert forall|i: int| 0 <= i < end - off implies t.subrange(off, end)[i] == s.subrange(
                off,
                end,
            )[i] by {
                assert(t[off + i] == s[off + i]);
            }
        }
        lemma_parse_agree(s, off, t, off);
        lemma_replay_append_parsed(apply_rec(m, c0), s, piece, c, end);
    }
}

/// A record's characters, appended whole to a segment whose location replay
/// succeeds, change that replay by exactly the record's location.
proof fn lemma_replay_pos_append(
    pm: Map<Seq<char>, CommandPosition>,
    n: u64,
    s: Seq<char>,
    piece: Seq<char>,
    c: CommandV,
    off: int,
)
    requires
        0 <= off <= s.len(),
        replay_pos_from(pm, n, s, off) is Some,
        parse_record(s + piece, s.len() as int) == Some((c, (s + piece).len() as int)),
    ensures
        replay_pos_from(pm, n, s + piece, off) == Some(
            match c {
                CommandV::SetV(k, _) => replay_pos_from(pm, n, s, off).unwrap().insert(
                    k,
                    (CommandPosition {
                        offset: s.len() as u64,
                        length: piece.len() as u64,
                        file_number: n,
                    }),
                ),
                CommandV::RmV(k) => replay_pos_from(pm, n, s, off).unwrap().remove(k),
            },
        ),
    decreases s.len() - off,
{
    reveal(replay_pos_from);
    let t = s + piece;
    if off == s.len() {
        assert(replay_pos_from(pm, n, s, off) == Some(pm));
        assert(parse_record(t, off) == Some((c, t.len() as int)));
        lemma_parse_end(t, off);
        let end = t.len() as int;
        match c {
            CommandV::SetV(k, _) => {
                let np = CommandPosition {
                    offset: off as u64,
                    length: (end - off) as u64,
                    file_number: n,
                };
                assert(replay_pos_from(pm.insert(k, np), n, t, end) == Some(pm.insert(k, np)));
                assert(off as u64 == s.len() as u64);
                assert((end - off) as u64 == piece.len() as u64);
            },
            CommandV::RmV(k) => {
                assert(replay_pos_from(pm.remove(k), n, t, end) == Some(pm.remove(k)));
            },
        }
    } else {
        let (c0, end) = parse_record(s, off).unwrap();
        lemma_parse_end(s, off);
        assert(t.subrange(off, end) =~= s.subrange(off, end)) by {
            assert forall|i: int| 0 <= i < end - off implies t.subrange(off, end)[i] == s.subrange(
                off,
                end,
            )[i] by {
                assert(t[off + i] == s[off + i]);
            }
        }
        lemma_parse_agree(s, off, t, off);
        match c0 {
            CommandV::SetV(k0, _) => {
                lemma_replay_pos_append(
                    pm.insert(
                        k0,
                        (CommandPosition {
                            offset: off as u64,
                            length: (end - off) as u64,
                            file_number: n,
                        }),
                    ),
                    n,
                    s,
                    piece,
                    c,
                    end,
                );
            },
            CommandV::RmV(k0) => {
                lemma_replay_pos_append(pm.remove(k0), n, s, piece, c, end);
            },
        }
    }
}

/// A record already parsed within a stream still parses there after the
/// stream grows at its end.
proof fn lemma_parse_prefix(s: Seq<char>, ext: Seq<char>, off: int)
    requires
        parse_record(s, off) is Some,
    ensures
        parse_record(s + ext, off) == parse_record(s, off),
{
    let (c, end) = parse_record(s, off).unwrap();
    lemma_parse_end(s, off);
    let t = s + ext;
    assert(t.subrange(off, end) =~= s.subrange(off, end)) by {
        assert forall|i: int| 0 <= i < end - off implies t.subrange(off, end)[i] == s.subrange(
            off,
            end,
        )[i] by {
            assert(t[off + i] == s[off + i]);
        }
    }
    lemma_parse_agree(s, off, t, off);
}

/// `n`, capped at the largest machine value: the waste counter saturates
/// rather than overflow, which keeps it an upper bound.
pub open spec fn sat64(n: int) -> int {
    if n <= u64::MAX {
        n
    } else {
        u64::MAX as int
    }
}

/// Adds with saturation at the top of the range.
fn sat_add_u64(a: u64, b: u64) -> (r: u64)
    ensures
        r == sat64(a + b),
{
    if a <= u64::MAX - b {
        a + b
    } else {
        u64::MAX
    }
}

/// Appending one whole record to the newest segment replays to exactly that
/// record's effect, leaves every other segment as it was, and keeps every
/// record location valid.
proof fn lemma_disk_append(
    old_disk: Seq<(u64, Seq<char>)>,
    new_disk: Seq<(u64, Seq<char>)>,
    e: Seq<char>,
    c: CommandV,
    m: Map<Seq<char>, Seq<char>>,
)
    requires
        old_disk.len() > 0,
        new_disk.len() == old_disk.len(),
        new_disk.drop_last() == old_disk.drop_last(),
        new_disk.last().0 == old_disk.last().0,
        new_disk.last().1 == old_disk.last().1 + e,
        replay_disk(Map::empty(), seg_contents(old_disk)) == Some(m),
        parse_record(
            old_disk.last().1 + e,
            old_disk.last().1.len() as int,
        ) == Some((c, (old_disk.last().1 + e).len() as int)),
    ensures
        replay_disk(Map::empty(), seg_contents(new_disk)) == Some(apply_rec(m, c)),
        forall|n: u64|
            n != old_disk.last().0 ==> #[trigger] seg_lookup(new_disk, n) == seg_lookup(
                old_disk,
                n,
            ),
        seg_lookup(new_disk, old_disk.last().0) == Some(new_disk.last().1),
        forall|p: CommandPosition, k: Seq<char>, v: Seq<char>|
            #[trigger] pos_ok(old_disk, p, k, v) ==> pos_ok(new_disk, p, k, v),
{
    let sc_old = seg_contents(old_disk);
    let sc_new = seg_contents(new_disk);
    assert(sc_new.drop_last() =~= sc_old.drop_last()) by {
        assert forall|i: int| 0 <= i < old_disk.len() - 1 implies sc_new.drop_last()[i]
            == sc_old.drop_last()[i] by {
            assert(new_disk[i] == new_disk.drop_last()[i]);
            assert(old_disk[i] == old_disk.drop_last()[i]);
        }
    }
    assert(sc_new.last() == old_disk.last().1 + e);
    let mid = replay_disk(Map::empty(), sc_old.drop_last());
    assert(mid is Some && replay_from(mid.unwrap(), old_disk.last().1, 0) == Some(m));
    lemma_replay_append_parsed(mid.unwrap(), old_disk.last().1, e, c, 0);
    assert(replay_disk(Map::empty(), sc_new) == Some(apply_rec(m, c)));
    assert forall|n: u64|
        n != old_disk.last().0 implies #[trigger] seg_lookup(new_disk, n) == seg_lookup(
        old_disk,
        n,
    ) by {
        assert(seg_lookup(new_disk, n) == seg_lookup(new_disk.drop_last(), n));
        assert(seg_lookup(old_disk, n) == seg_lookup(old_disk.drop_last(), n));
    }
    assert forall|p: CommandPosition, k: Seq<char>, v: Seq<char>|
        #[trigger] pos_ok(old_disk, p, k, v) implies pos_ok(new_disk, p, k, v) by {
        if p.file_number == old_disk.last().0 {
            assert(seg_lookup(old_disk, p.file_number) == Some(old_disk.last().1));
            assert(seg_lookup(new_disk, p.file_number) == Some(new_disk.last().1));
            lemma_parse_prefix(old_disk.last().1, e, p.offset as int);
        } else {
            assert(seg_lookup(new_disk, p.file_number) == seg_lookup(old_disk, p.file_number));
        }
    }
}

/// The index of `k` in `keys`, if present.
fn find_key(keys: &Vec<String>, k: &String) -> (r: Option<usize>)
    ensures
        match r {
            Some(i) => i < keys@.len() && keys@[i as int]@ == k@,
            None => forall|i: int| 0 <= i < keys@.len() ==> (#[trigger] keys@[i])@ != k@,
        },
{
    let mut i: usize = 0;
    while i < keys.len()
        invariant
            0 <= i <= keys@.len(),
            forall|j: int| 0 <= j < i ==> (#[trigger] keys@[j])@ != k@,
        decreases keys@.len() - i,
    {
        if keys[i].eq(k) {
            return Some(i);
        }
        i = i + 1;
    }
    None
}

/// The sealed segment numbered `n`, if it exists.
fn find_segment<'a>(segs: &'a Vec<Segment>, n: u64) -> (r: Option<&'a Segment>)
    ensures
        match r {
            Some(s) => s.number == n && seg_lookup(segs@.map(|i: int, x: Segment| x@), n)
                == Some(s.contents@),
            None => seg_lookup(segs@.map(|i: int, x: Segment| x@), n) is None,
        },
{
    let ghost d = segs@.map(|i: int, x: Segment| x@);
    proof {
        assert(d.take(segs@.len() as int) =~= d);
    }
    let mut i: usize = segs.len();
    while i > 0
        invariant
            0 <= i <= segs@.len(),
            d == segs@.map(|i: int, x: Segment| x@),
            seg_lookup(d, n) == seg_lookup(d.take(i as int), n),
        decreases i,
    {
        i = i - 1;
        proof {
            assert(d.take(i as int + 1).last() == d[i as int]);
            assert(d.take(i as int + 1).drop_last() =~= d.take(i as int));
        }
        if segs[i].number == n {
            proof {
                assert(seg_lookup(d.take(i as int + 1), n) == Some(d[i as int].1));
            }
            return Some(&segs[i]);
        }
    }
    proof {
        assert(d.take(0) =~= Seq::<(u64, Seq<char>)>::empty());
    }
    None
}

/// The total characters a segment set occupies.
pub open spec fn disk_size(d: Seq<(u64, Seq<char>)>) -> nat
    decreases d.len(),
{
    if d.len() == 0 {
        0
    } else {
        disk_size(d.drop_last()) + d.last().1.len()
    }
}

/// The total characters of the live records: what the keys' index entries
/// occupy on disk.
pub open spec fn live_size(keys: Seq<String>, idx: Map<Seq<char>, CommandPosition>) -> nat
    decreases keys.len(),
{
    if keys.len() == 0 {
        0
    } else {
        live_size(keys.drop_last(), idx) + idx[keys.last()@].length as nat
    }
}

/// Two indexes that store the same length for every listed key carry the
/// same live size.
proof fn lemma_live_size_lengths(
    keys: Seq<String>,
    a: Map<Seq<char>, CommandPosition>,
    b: Map<Seq<char>, CommandPosition>,
)
    requires
        forall|j: int|
            0 <= j < keys.len() ==> a[(#[trigger] keys[j])@].length == b[keys[j]@].length,
    ensures
        live_size(keys, a) == live_size(keys, b),
    decreases keys.len(),
{
    if keys.len() > 0 {
        let d = keys.drop_last();
        assert(forall|j: int| 0 <= j < d.len() ==> d[j] == keys[j]);
        lemma_live_size_lengths(d, a, b);
        assert(keys.last() == keys[keys.len() - 1]);
    }
}

/// Whether some segment in `s` carries the number `n`.
pub open spec fn has_num(s: Seq<(u64, Seq<char>)>, n: u64) -> bool {
    exists|i: int| 0 <= i < s.len() && (#[trigger] s[i]).0 == n
}

/// Whether no two segments in `s` share a number.
pub open spec fn nodup_nums(s: Seq<(u64, Seq<char>)>) -> bool {
    forall|i: int, j: int| 0 <= i < j < s.len() ==> s[i].0 != s[j].0
}

/// A segment file's name parses back to its number.
pub proof fn lemma_file_name_round(n: u64)
    ensures
        spec_parse_name(spec_file_name(n)) == Some(n),
{
    reveal_strlit("data_");
    reveal_strlit(".txt");
    lemma_min_dec(n as nat);
    let md = min_dec(n as nat);
    let s = spec_file_name(n);
    assert(s.len() == 9 + md.len());
    assert(s.subrange(0, 5) =~= "data_"@) by {
        assert forall|i: int| 0 <= i < 5 implies s.subrange(0, 5)[i] == "data_"@[i] by {
            assert(s[i] == "data_"@[i]);
        }
    }
    assert(s.subrange(s.len() - 4, s.len() as int) =~= ".txt"@) by {
        assert forall|i: int|
            0 <= i < 4 implies s.subrange(s.len() - 4, s.len() as int)[i] == ".txt"@[i] by {
            assert(s[s.len() - 4 + i] == ".txt"@[i]);
        }
    }
    assert(s.subrange(5, s.len() - 4) =~= md) by {
        assert forall|i: int| 0 <= i < md.len() implies s.subrange(5, s.len() - 4)[i] == md[i] by {
            assert(s[5 + i] == md[i]);
        }
    }
}

/// A name that parses is the canonical name of its number: parsing is
/// injective, so distinct names never stand for the same segment.
pub proof fn lemma_file_name_canon(s: Seq<char>, n: u64)
    requires
        spec_parse_name(s) == Some(n),
    ensures
        s == spec_file_name(n),
{
    reveal_strlit("data_");
    reveal_strlit(".txt");
    let mid = s.subrange(5, s.len() - 4);
    lemma_min_dec_canon(mid);
    assert(mid == min_dec(n as nat));
    let e = spec_file_name(n);
    assert(e.len() == 9 + mid.len());
    assert(s =~= e) by {
        assert forall|i: int| 0 <= i < s.len() implies s[i] == e[i] by {
            if i < 5 {
                assert(s.subrange(0, 5)[i] == "data_"@[i]);
                assert(e[i] == "data_"@[i]);
            } else if i < s.len() - 4 {
                assert(mid[i - 5] == s[i]);
                assert(e[i] == min_dec(n as nat)[i - 5]);
            } else {
                assert(s.subrange(s.len() - 4, s.len() as int)[i - (s.len() - 4)] == s[i]);
                assert(e[i] == ".txt"@[i - (s.len() - 4)]);
            }
        }
    }
}

/// Canonical segment names are never the alternate backend's files.
pub proof fn lemma_name_not_foreign(n: u64)
    ensures
        !foreign_marker(spec_file_name(n)),
{
    reveal_strlit("db");
    reveal_strlit("conf");
    reveal_strlit("data_");
    reveal_strlit(".txt");
    lemma_min_dec(n as nat);
    assert(spec_file_name(n).len() >= 10);
}

/// Every parsed segment number originates in some file of the listing.
proof fn lemma_parsed_origin(files: Seq<(Seq<char>, Seq<char>)>, n: u64)
    requires
        has_num(parsed_segs(files), n),
    ensures
        exists|i: int|
            0 <= i < files.len() && spec_parse_name((#[trigger] files[i]).0) == Some(n),
    decreases files.len(),
{
    let ps = parsed_segs(files);
    let rest = parsed_segs(files.drop_last());
    if spec_parse_name(files.last().0) == Some(n) {
        assert(files[files.len() - 1] == files.last());
    } else {
        assert(has_num(rest, n)) by {
            let i = choose|i: int| 0 <= i < ps.len() && (#[trigger] ps[i]).0 == n;
            assert(i < rest.len());
            assert(rest[i] == ps[i]);
        }
        lemma_parsed_origin(files.drop_last(), n);
        let i = choose|i: int|
            0 <= i < files.drop_last().len() && spec_parse_name(
                (#[trigger] files.drop_last()[i]).0,
            ) == Some(n);
        assert(files[i] == files.drop_last()[i]);
    }
}

/// With pairwise-distinct file names, no two parsed segments share a number.
proof fn lemma_parsed_nodup(files: Seq<(Seq<char>, Seq<char>)>)
    requires
        forall|i: int, j: int| 0 <= i < j < files.len() ==> files[i].0 != files[j].0,
    ensures
        nodup_nums(parsed_segs(files)),
    decreases files.len(),
{
    if files.len() == 0 {
    } else {
        let d = files.drop_last();
        assert(forall|i: int, j: int| 0 <= i < j < d.len() ==> d[i].0 != d[j].0) by {
            assert(forall|i: int| 0 <= i < d.len() ==> d[i] == files[i]);
        }
        lemma_parsed_nodup(d);
        let rest = parsed_segs(d);
        match spec_parse_name(files.last().0) {
            Some(n) => {
                let ps = parsed_segs(files);
                assert(ps == rest.push((n, files.last().1)));
                if has_num(rest, n) {
                    lemma_parsed_origin(d, n);
                    let i = choose|i: int|
                        0 <= i < d.len() && spec_parse_name((#[trigger] d[i]).0) == Some(n);
                    lemma_file_name_canon(d[i].0, n);
                    lemma_file_name_canon(files.last().0, n);
                    assert(files[i] == d[i]);
                    assert(files[i].0 == files[files.len() - 1].0);
                    assert(false);
                }
                assert forall|i: int, j: int| 0 <= i < j < ps.len() implies ps[i].0 != ps[j].0 by {
                    if j < ps.len() - 1 {
                        assert(ps[i] == rest[i] && ps[j] == rest[j]);
                    } else {
                        assert(ps[i] == rest[i]);
                        assert(ps[j].0 == n);
                        assert(has_num(rest, ps[i].0)) by {
                            assert(rest[i].0 == ps[i].0);
                        }
                    }
                }
            },
            None => {
                assert(parsed_segs(files) == rest);
            },
        }
    }
}

/// What inserting into a number-sorted sequence guarantees.
proof fn lemma_insert_by_num(s: Seq<(u64, Seq<char>)>, e: (u64, Seq<char>))
    requires
        sorted_strict(s),
        !has_num(s, e.0),
    ensures
        sorted_strict(insert_by_num(s, e)),
        insert_by_num(s, e).len() == s.len() + 1,
        forall|n: u64| has_num(insert_by_num(s, e), n) <==> has_num(s, n) || n == e.0,
        insert_by_num(s, e).last().0 == if s.len() > 0 && s.last().0 > e.0 {
            s.last().0
        } else {
            e.0
        },
    decreases s.len(),
{
    let r = insert_by_num(s, e);
    if s.len() == 0 {
        assert(r == seq![e]);
        assert(r[0] == e);
        assert forall|n: u64| has_num(r, n) implies n == e.0 by {
            let i = choose|i: int| 0 <= i < r.len() && (#[trigger] r[i]).0 == n;
        }
        assert(forall|n: u64| n == e.0 ==> has_num(r, n));
    } else if e.0 >= s.last().0 {
        assert(r == s.push(e));
        assert(s.last().0 != e.0) by {
            assert(s[s.len() - 1].0 == s.last().0);
        }
        assert forall|i: int, j: int| 0 <= i < j < r.len() implies r[i].0 < r[j].0 by {
            if j < r.len() - 1 {
                assert(r[i] == s[i] && r[j] == s[j]);
            } else {
                assert(r[i] == s[i]);
                assert(r[j] == e);
                if i < s.len() - 1 {
                    assert(s[i].0 < s.last().0);
                }
            }
        }
        assert forall|n: u64| has_num(r, n) implies has_num(s, n) || n == e.0 by {
            let i = choose|i: int| 0 <= i < r.len() && (#[trigger] r[i]).0 == n;
            if i < s.len() {
                assert(s[i].0 == n);
            }
        }
        assert forall|n: u64| has_num(s, n) || n == e.0 implies has_num(r, n) by {
            if has_num(s, n) {
                let i = choose|i: int| 0 <= i < s.len() && (#[trigger] s[i]).0 == n;
                assert(r[i].0 == n);
            } else {
                assert(r[r.len() - 1].0 == n);
            }
        }
    } else {
        let d = s.drop_last();
        assert(sorted_strict(d)) by {
            assert(forall|i: int| 0 <= i < d.len() ==> d[i] == s[i]);
        }
        assert(!has_num(d, e.0)) by {
            if has_num(d, e.0) {
                let i = choose|i: int| 0 <= i < d.len() && (#[trigger] d[i]).0 == e.0;
                assert(s[i].0 == e.0);
                assert(has_num(s, e.0)) by {
                    assert((0 <= i < s.len() && s[i].0 == e.0));
                }
            }
        }
        lemma_insert_by_num(d, e);
        let q = insert_by_num(d, e);
        assert(r == q.push(s.last()));
        // the reattached last element is above everything in `q`
        assert forall|i: int| 0 <= i < q.len() implies q[i].0 < s.last().0 by {
            assert(has_num(q, q[i].0)) by {
                assert((0 <= i < q.len() && q[i].0 == q[i].0));
            }
            if has_num(d, q[i].0) {
                let j = choose|j: int| 0 <= j < d.len() && (#[trigger] d[j]).0 == q[i].0;
                assert(s[j].0 < s[s.len() - 1].0);
            } else {
                assert(q[i].0 == e.0);
            }
        }
        assert forall|i: int, j: int| 0 <= i < j < r.len() implies r[i].0 < r[j].0 by {
            if j < r.len() - 1 {
                assert(r[i] == q[i] && r[j] == q[j]);
            } else {
                assert(r[i] == q[i]);
                assert(r[j] == s.last());
            }
        }
        assert forall|n: u64| has_num(r, n) implies has_num(s, n) || n == e.0 by {
            let i = choose|i: int| 0 <= i < r.len() && (#[trigger] r[i]).0 == n;
            if i < q.len() {
                assert(q[i].0 == n);
                assert(has_num(q, n)) by {
                    assert((0 <= i < q.len() && q[i].0 == n));
                }
                if has_num(d, n) {
                    let j = choose|j: int| 0 <= j < d.len() && (#[trigger] d[j]).0 == n;
                    assert(s[j].0 == n);
                    assert(has_num(s, n)) by {
                        assert((0 <= j < s.len() && s[j].0 == n));
                    }
                }
            } else {
                assert(r[i] == s.last());
                assert(s[s.len() - 1].0 == n);
                assert(has_num(s, n)) by {
                    assert((0 <= s.len() - 1 < s.len() && s[s.len() - 1].0 == n));
                }
            }
        }
        assert forall|n: u64| has_num(s, n) || n == e.0 implies has_num(r, n) by {
            if has_num(s, n) {
                let i = choose|i: int| 0 <= i < s.len() && (#[trigger] s[i]).0 == n;
                if i < s.len() - 1 {
                    assert(d[i].0 == n);
                    assert(has_num(d, n)) by {
                        assert((0 <= i < d.len() && d[i].0 == n));
                    }
                    assert(has_num(q, n));
                    let j = choose|j: int| 0 <= j < q.len() && (#[trigger] q[j]).0 == n;
                    assert(r[j].0 == n);
                } else {
                    assert(r[r.len() - 1].0 == n);
                }
            } else {
                assert(has_num(q, n));
                let j = choose|j: int| 0 <= j < q.len() && (#[trigger] q[j]).0 == n;
                assert(r[j].0 == n);
            }
        }
        assert(r.last() == s.last());
    }
}

/// Sorting distinct-numbered segments yields a strictly ascending sequence
/// over the same numbers.
proof fn lemma_sort_props(s: Seq<(u64, Seq<char>)>)
    requires
        nodup_nums(s),
    ensures
        sorted_strict(sort_by_num(s)),
        sort_by_num(s).len() == s.len(),
        forall|n: u64| has_num(sort_by_num(s), n) <==> has_num(s, n),
    decreases s.len(),
{
    if s.len() == 0 {
        assert forall|n: u64| has_num(sort_by_num(s), n) implies has_num(s, n) by {
            let i = choose|i: int|
                0 <= i < sort_by_num(s).len() && (#[trigger] sort_by_num(s)[i]).0 == n;
        }
        assert forall|n: u64| has_num(s, n) implies has_num(sort_by_num(s), n) by {
            let i = choose|i: int| 0 <= i < s.len() && (#[trigger] s[i]).0 == n;
        }
    } else {
        let d = s.drop_last();
        assert(nodup_nums(d)) by {
            assert(forall|i: int| 0 <= i < d.len() ==> d[i] == s[i]);
        }
        lemma_sort_props(d);
        let q = sort_by_num(d);
        assert(!has_num(q, s.last().0)) by {
            if has_num(q, s.last().0) {
                assert(has_num(d, s.last().0));
                let i = choose|i: int| 0 <= i < d.len() && (#[trigger] d[i]).0 == s.last().0;
                assert(s[i].0 == s[s.len() - 1].0);
            }
        }
        lemma_insert_by_num(q, s.last());
        assert forall|n: u64| has_num(sort_by_num(s), n) implies has_num(s, n) by {
            if has_num(d, n) {
                let i = choose|i: int| 0 <= i < d.len() && (#[trigger] d[i]).0 == n;
                assert(s[i].0 == n);
                assert(has_num(s, n)) by {
                    assert((0 <= i < s.len() && s[i].0 == n));
                }
            } else {
                assert(n == s.last().0);
                assert(has_num(s, n)) by {
                    assert(s[s.len() - 1].0 == n);
                }
            }
        }
        assert forall|n: u64| has_num(s, n) implies has_num(sort_by_num(s), n) by {
            let i = choose|i: int| 0 <= i < s.len() && (#[trigger] s[i]).0 == n;
            if i < s.len() - 1 {
                assert(d[i].0 == n);
                assert(has_num(d, n)) by {
                    assert((0 <= i < d.len() && d[i].0 == n));
                }
            }
        }
    }
}

/// A sequence already strictly sorted is its own sort.
pub proof fn lemma_sort_id(s: Seq<(u64, Seq<char>)>)
    requires
        sorted_strict(s),
    ensures
        sort_by_num(s) == s,
    decreases s.len(),
{
    if s.len() == 0 {
        assert(sort_by_num(s) =~= s);
    } else {
        let d = s.drop_last();
        assert(sorted_strict(d)) by {
            assert(forall|i: int| 0 <= i < d.len() ==> d[i] == s[i]);
        }
        lemma_sort_id(d);
        if d.len() == 0 {
            assert(insert_by_num(d, s.last()) =~= seq![s.last()]);
            assert(s =~= seq![s.last()]);
        } else {
            assert(d.last().0 == s[s.len() - 2].0);
            assert(s.last().0 >= d.last().0);
            assert(insert_by_num(d, s.last()) == d.push(s.last()));
            assert(d.push(s.last()) =~= s);
        }
    }
}

/// A successful segment lookup means the number is present.
proof fn lemma_seg_lookup_has(d: Seq<(u64, Seq<char>)>, n: u64)
    ensures
        seg_lookup(d, n) is Some ==> has_num(d, n),
    decreases d.len(),
{
    if d.len() > 0 && d.last().0 != n {
        lemma_seg_lookup_has(d.drop_last(), n);
        if seg_lookup(d, n) is Some {
            let i = choose|i: int|
                0 <= i < d.drop_last().len() && (#[trigger] d.drop_last()[i]).0 == n;
            assert(d[i].0 == n);
            assert(has_num(d, n)) by {
                assert((0 <= i < d.len() && d[i].0 == n));
            }
        }
    } else if d.len() > 0 {
        assert(d[d.len() - 1].0 == n);
        assert(has_num(d, n)) by {
            assert((0 <= d.len() - 1 < d.len() && d[d.len() - 1].0 == n));
        }
    }
}

/// Once a prefix of the segment sequence fails to replay, the whole does.
proof fn lemma_replay_none_prefix(d: Seq<Seq<char>>, j: int)
    requires
        0 <= j <= d.len(),
        replay_disk(Map::empty(), d.take(j)) is None,
    ensures
        replay_disk(Map::empty(), d) is None,
    decreases d.len() - j,
{
    if j == d.len() {
        assert(d.take(j) =~= d);
    } else {
        assert(d.take(j + 1).drop_last() =~= d.take(j));
        assert(replay_disk(Map::empty(), d.take(j + 1)) is None);
        lemma_replay_none_prefix(d, j + 1);
    }
}

/// Whether the characters of `s` from `off` on equal `lit`.
fn eq_range(s: &str, off: usize, lit: &str) -> (r: bool)
    requires
        off + lit@.len() <= s@.len(),
    ensures
        r == (s@.subrange(off as int, off as int + lit@.len() as int) == lit@),
{
    let sn = s.unicode_len();
    let n = lit.unicode_len();
    let mut i: usize = 0;
    while i < n
        invariant
            0 <= i <= n,
            n == lit@.len(),
            sn == s@.len(),
            off + n <= s@.len(),
            forall|j: int| 0 <= j < i ==> s@[off + j] == lit@[j],
        decreases n - i,
    {
        if s.get_char(off + i) != lit.get_char(i) {
            proof {
                assert(s@.subrange(off as int, off as int + lit@.len() as int)[i as int]
                    != lit@[i as int]);
            }
            return false;
        }
        i = i + 1;
    }
    proof {
        assert(s@.subrange(off as int, off as int + lit@.len() as int) =~= lit@);
    }
    true
}

/// Whether two strings hold the same characters.
fn str_eq(a: &str, b: &str) -> (r: bool)
    ensures
        r == (a@ == b@),
{
    let la = a.unicode_len();
    let lb = b.unicode_len();
    if la != lb {
        return false;
    }
    proof {
        assert(a@.subrange(0, a@.len() as int) =~= a@);
    }
    eq_range(a, 0, b)
}

/// Parses a file name, accepting exactly the canonical segment names.
fn parse_file_name(name: &str) -> (r: Option<u64>)
    ensures
        r == spec_parse_name(name@),
{
    proof {
        lemma_pow10_20();
        reveal_strlit("data_");
        reveal_strlit(".txt");
    }
    let n = name.unicode_len();
    if n < 10 {
        return None;
    }
    if !eq_range(name, 0, "data_") {
        return None;
    }
    if !eq_range(name, n - 4, ".txt") {
        return None;
    }
    let ghost mid = name@.subrange(5, n as int - 4);
    let width = n - 9;
    // digits and the leading-zero rule
    let mut i: usize = 0;
    while i < width
        invariant
            0 <= i <= width,
            width == n - 9,
            10 <= n == name@.len(),
            mid == name@.subrange(5, n as int - 4),
            forall|j: int| 0 <= j < i ==> is_digit(#[trigger] mid[j]),
            width > 1 && i > 0 ==> mid[0] as u32 != 48,
        decreases width - i,
    {
        let c = name.get_char(5 + i);
        let u = c as u32;
        if u < 48 || u > 57 {
            proof {
                assert(mid[i as int] == name@[5 + i as int]);
                assert(!is_digit(mid[i as int]));
            }
            return None;
        }
        if i == 0 && u == 48 && width > 1 {
            proof {
                assert(mid[0] == name@[5]);
                assert(mid[0] as u32 == 48);
                assert('0' as u32 == 48);
                assert(mid[0] == '0') by {
                    vstd::utf8::char_u32_cast(mid[0], 48);
                    vstd::utf8::char_u32_cast('0', 48);
                }
            }
            return None;
        }
        proof {
            assert(mid[i as int] == name@[5 + i as int]);
        }
        i = i + 1;
    }
    proof {
        assert(all_digits(mid));
        if width > 1 {
            assert(mid[0] == name@[5]);
            assert(mid[0] != '0') by {
                if mid[0] == '0' {
                    assert(mid[0] as u32 == 48);
                }
            }
        }
    }
    if width > 20 {
        proof {
            lemma_dec_len_lower(mid);
            lemma_pow10_mono(20, (mid.len() - 1) as nat);
            assert(dec_len(mid) > u64::MAX);
        }
        return None;
    }
    // the numeric value
    let mut acc: u128 = 0;
    let mut i: usize = 0;
    while i < width
        invariant
            0 <= i <= width,
            width == n - 9,
            width <= 20,
            10 <= n == name@.len(),
            mid == name@.subrange(5, n as int - 4),
            all_digits(mid),
            acc as nat == dec_len(mid.subrange(0, i as int)),
            acc < pow10(i as nat),
            pow10(20) == 0x56BC75E2D63100000,
        decreases width - i,
    {
        let c = name.get_char(5 + i);
        let u = c as u32;
        proof {
            assert(mid[i as int] == name@[5 + i as int]);
            assert(is_digit(mid[i as int]));
        }
        let d = (u - 48) as u64;
        proof {
            lemma_pow10_mono((i + 1) as nat, 20);
            assert(pow10((i + 1) as nat) == 10 * pow10(i as nat));
            assert(acc * 10 + d < pow10((i + 1) as nat));
        }
        let ghost prev = mid.subrange(0, i as int);
        acc = acc * 10 + (d as u128);
        i = i + 1;
        proof {
            let cur = mid.subrange(0, i as int);
            assert(cur =~= prev.push(mid[i - 1]));
            assert(cur.drop_last() =~= prev);
            assert(digit_val(cur.last()) == d);
        }
    }
    proof {
        assert(mid.subrange(0, width as int) =~= mid);
    }
    if acc > u64::MAX as u128 {
        None
    } else {
        Some(acc as u64)
    }
}

/// Builds the file name of the segment numbered `n`.
fn file_name_of(n: u64) -> (r: String)
    ensures
        r@ == spec_file_name(n),
{
    let mut s = "data_".to_owned();
    let digits = enc_min(n);
    s.append(digits.as_str());
    s.append(".txt");
    proof {
        assert(s@ =~= spec_file_name(n));
    }
    s
}

/// Inserts a segment into a number-sorted vector, keeping it sorted.
fn insert_seg(v: Vec<Segment>, e: Segment) -> (r: Vec<Segment>)
    ensures
        r@.map(|q: int, x: Segment| x@) == insert_by_num(v@.map(|q: int, x: Segment| x@), e@),
    decreases v@.len(),
{
    let ghost sv = v@.map(|q: int, x: Segment| x@);
    let mut v = v;
    if v.len() == 0 {
        v.push(e);
        proof {
            assert(v@.map(|q: int, x: Segment| x@) =~= seq![e@]);
            assert(insert_by_num(sv, e@) == seq![e@]) by {
                assert(sv =~= Seq::<(u64, Seq<char>)>::empty());
            }
        }
        v
    } else if e.number >= v[v.len() - 1].number {
        proof {
            assert(sv.last() == v@[v@.len() - 1]@);
        }
        v.push(e);
        proof {
            assert(v@.map(|q: int, x: Segment| x@) =~= sv.push(e@));
        }
        v
    } else {
        proof {
            assert(sv.last() == v@[v@.len() - 1]@);
        }
        let last = match v.pop() {
            Some(x) => x,
            None => {
                proof {
                    assert(false);
                }
                Segment { number: 0, contents: String::new() }
            },
        };
        proof {
            assert(v@.map(|q: int, x: Segment| x@) =~= sv.drop_last());
        }
        let mut r = insert_seg(v, e);
        r.push(last);
        proof {
            assert(r@.map(|q: int, x: Segment| x@) =~= insert_by_num(sv.drop_last(), e@).push(
                sv.last(),
            ));
        }
        r
    }
}

/// Sorts segments by number, ascending.
fn sort_segs(v: Vec<Segment>) -> (r: Vec<Segment>)
    ensures
        r@.map(|q: int, x: Segment| x@) == sort_by_num(v@.map(|q: int, x: Segment| x@)),
    decreases v@.len(),
{
    let ghost sv = v@.map(|q: int, x: Segment| x@);
    let mut v = v;
    if v.len() == 0 {
        proof {
            assert(sv =~= Seq::<(u64, Seq<char>)>::empty());
            assert(v@.map(|q: int, x: Segment| x@) =~= sort_by_num(sv));
        }
        v
    } else {
        proof {
            assert(sv.last() == v@[v@.len() - 1]@);
        }
        let last = match v.pop() {
            Some(x) => x,
            None => {
                proof {
                    assert(false);
                }
                Segment { number: 0, contents: String::new() }
            },
        };
        proof {
            assert(v@.map(|q: int, x: Segment| x@) =~= sv.drop_last());
        }
        let s = sort_segs(v);
        let ghost lastv = last@;
        let r = insert_seg(s, last);
        proof {
            assert(r@.map(|q: int, x: Segment| x@) == insert_by_num(
                sort_by_num(sv.drop_last()),
                lastv,
            ));
        }
        r
    }
}

/// Appending one whole record to the newest segment changes the location
/// replay by exactly that record's location.
proof fn lemma_disk_append_pos(
    old_disk: Seq<(u64, Seq<char>)>,
    new_disk: Seq<(u64, Seq<char>)>,
    e: Seq<char>,
    c: CommandV,
    pm: Map<Seq<char>, CommandPosition>,
)
    requires
        old_disk.len() > 0,
        new_disk.len() == old_disk.len(),
        new_disk.drop_last() == old_disk.drop_last(),
        new_disk.last().0 == old_disk.last().0,
        new_disk.last().1 == old_disk.last().1 + e,
        replay_pos_disk(Map::empty(), old_disk) == Some(pm),
        parse_record(
            old_disk.last().1 + e,
            old_disk.last().1.len() as int,
        ) == Some((c, (old_disk.last().1 + e).len() as int)),
    ensures
        replay_pos_disk(Map::empty(), new_disk) == Some(
            match c {
                CommandV::SetV(k, _) => pm.insert(
                    k,
                    (CommandPosition {
                        offset: old_disk.last().1.len() as u64,
                        length: e.len() as u64,
                        file_number: old_disk.last().0,
                    }),
                ),
                CommandV::RmV(k) => pm.remove(k),
            },
        ),
{
    reveal(replay_pos_disk);
    let mid = replay_pos_disk(Map::empty(), old_disk.drop_last());
    assert(mid is Some && replay_pos_from(mid.unwrap(), old_disk.last().0, old_disk.last().1, 0)
        == Some(pm));
    lemma_replay_pos_append(mid.unwrap(), old_disk.last().0, old_disk.last().1, e, c, 0);
}

/// Whether `keys` lists exactly the keys of `dom`, each once.
pub open spec fn keys_sync(keys: Seq<String>, dom: Set<Seq<char>>) -> bool {
    &&& (forall|i: int| 0 <= i < keys.len() ==> dom.contains((#[trigger] keys[i])@))
    &&& (forall|k: Seq<char>|
        #[trigger] dom.contains(k) ==> exists|i: int|
            0 <= i < keys.len() && (#[trigger] keys[i])@ == k)
    &&& (forall|i: int, j: int| 0 <= i < j < keys.len() ==> keys[i]@ != keys[j]@)
}

/// The key list stays in step with the domain across an insertion: either
/// the key was already listed, or it was appended once.
proof fn lemma_keys_sync_insert(ko: Seq<String>, kn: Seq<String>, dom: Set<Seq<char>>, k: Seq<char>)
    requires
        keys_sync(ko, dom),
        (kn == ko && exists|i: int| 0 <= i < ko.len() && (#[trigger] ko[i])@ == k) || (kn.len()
            == ko.len() + 1 && (forall|i: int| 0 <= i < ko.len() ==> kn[i] == ko[i])
            && kn.last()@ == k && (forall|i: int| 0 <= i < ko.len() ==> (#[trigger] ko[i])@ != k)),
    ensures
        keys_sync(kn, dom.insert(k)),
{
    let dn = dom.insert(k);
    if kn == ko {
        assert forall|kk: Seq<char>| #[trigger] dn.contains(kk) implies exists|i: int|
            0 <= i < kn.len() && (#[trigger] kn[i])@ == kk by {
            if kk == k {
                let i = choose|i: int| 0 <= i < ko.len() && (#[trigger] ko[i])@ == k;
                assert(kn[i]@ == kk);
            } else {
                let i = choose|i: int| 0 <= i < ko.len() && (#[trigger] ko[i])@ == kk;
                assert(kn[i]@ == kk);
            }
        }
    } else {
        assert forall|i: int| 0 <= i < kn.len() implies dn.contains((#[trigger] kn[i])@) by {
            if i < ko.len() {
                assert(kn[i] == ko[i]);
            } else {
                assert(kn[i]@ == k);
            }
        }
        assert forall|kk: Seq<char>| #[trigger] dn.contains(kk) implies exists|i: int|
            0 <= i < kn.len() && (#[trigger] kn[i])@ == kk by {
            if kk == k {
                assert(kn[kn.len() - 1]@ == kk);
            } else {
                let i = choose|i: int| 0 <= i < ko.len() && (#[trigger] ko[i])@ == kk;
                assert(kn[i]@ == kk);
            }
        }
        assert forall|i: int, j: int| 0 <= i < j < kn.len() implies kn[i]@ != kn[j]@ by {
            if j < kn.len() - 1 {
                assert(kn[i] == ko[i] && kn[j] == ko[j]);
            } else {
                assert(kn[i] == ko[i]);
                assert(kn[j]@ == k);
            }
        }
    }
}

/// The key list stays in step with the domain across a removal.
proof fn lemma_keys_sync_remove(
    ko: Seq<String>,
    kn: Seq<String>,
    dom: Set<Seq<char>>,
    k: Seq<char>,
    ir: int,
)
    requires
        keys_sync(ko, dom),
        0 <= ir < ko.len(),
        ko[ir]@ == k,
        kn == ko.remove(ir),
    ensures
        keys_sync(kn, dom.remove(k)),
{
    let dn = dom.remove(k);
    assert forall|i: int| 0 <= i < kn.len() implies dn.contains((#[trigger] kn[i])@) by {
        let j = if i < ir {
            i
        } else {
            i + 1
        };
        assert(kn[i] == ko[j]);
        assert(dom.contains(ko[j]@));
        assert(ko[j]@ != k);
    }
    assert forall|kk: Seq<char>| #[trigger] dn.contains(kk) implies exists|i: int|
        0 <= i < kn.len() && (#[trigger] kn[i])@ == kk by {
        let j = choose|j: int| 0 <= j < ko.len() && (#[trigger] ko[j])@ == kk;
        assert(j != ir);
        let i = if j < ir {
            j
        } else {
            j - 1
        };
        assert(kn[i] == ko[j]);
        assert(kn[i]@ == kk);
    }
    assert forall|i: int, j: int| 0 <= i < j < kn.len() implies kn[i]@ != kn[j]@ by {
        let i0 = if i < ir {
            i
        } else {
            i + 1
        };
        let j0 = if j < ir {
            j
        } else {
            j + 1
        };
        assert(kn[i] == ko[i0]);
        assert(kn[j] == ko[j0]);
    }
}

/// One appended `SET` record preserves the invariant: the new store is the
/// old one with the record appended to the active segment, the index entry
/// inserted, the model updated, and the key listed once.
proof fn lemma_set_step(
    s0: KvStore,
    s1: KvStore,
    k_view: Seq<char>,
    v_view: Seq<char>,
    e: Seq<char>,
    pos: CommandPosition,
    pushed: bool,
)
    requires
        s0.wf(),
        e == spec_encode(CommandV::SetV(k_view, v_view)),
        wf_command(CommandV::SetV(k_view, v_view)),
        pos == (CommandPosition {
            offset: s0.current_writer.position,
            length: e.len() as u64,
            file_number: s0.current_file_number,
        }),
        pos.length as nat == e.len(),
        s1.sealed@ == s0.sealed@,
        s1.current_file_number == s0.current_file_number,
        s1.current_writer.contents@ == s0.current_writer.contents@ + e,
        s1.current_writer.position == s1.current_writer.contents@.len(),
        s1.index@ == s0.index@.insert(k_view, pos),
        s1.model@ == s0.model@.insert(k_view, v_view),
        pushed ==> s1.keys@.len() == s0.keys@.len() + 1 && (forall|i: int|
            0 <= i < s0.keys@.len() ==> s1.keys@[i] == s0.keys@[i]) && s1.keys@.last()@ == k_view
            && (forall|i: int| 0 <= i < s0.keys@.len() ==> (#[trigger] s0.keys@[i])@ != k_view),
        !pushed ==> s1.keys@ == s0.keys@ && exists|i: int|
            0 <= i < s0.keys@.len() && (#[trigger] s0.keys@[i])@ == k_view,
    ensures
        s1.wf(),
{
    let c = CommandV::SetV(k_view, v_view);
    let s_old = s0.current_writer.contents@;
    let od = s0.disk();
    let nd = s1.disk();
    assert(nd.drop_last() =~= od.drop_last());
    assert(nd.last() == (pos.file_number, s_old + e));
    assert(od.last() == (pos.file_number, s_old));
    assert((s_old + e).subrange(s_old.len() as int, (s_old + e).len() as int) =~= e);
    lemma_encode_parses(s_old + e, s_old.len() as int, c);
    lemma_disk_append(od, nd, e, c, s0.model@);
    assert(pos.offset as nat == s_old.len());
    assert(seg_lookup(nd, pos.file_number) == Some(s_old + e));
    assert(pos_ok(nd, pos, k_view, v_view));
    assert(s1.index@ == s0.index@.insert(k_view, pos));
    assert(s1.index@.dom() =~= s1.model@.dom());
    assert forall|k: Seq<char>| #[trigger] s1.index@.dom().contains(k) implies pos_ok(
        nd,
        s1.index@[k],
        k,
        s1.model@[k],
    ) by {
        if k == k_view {
        } else {
            assert(s0.index@.dom().contains(k));
            assert(pos_ok(od, s0.index@[k], k, s0.model@[k]));
            assert(s1.index@[k] == s0.index@[k]);
            assert(s1.model@[k] == s0.model@[k]);
        }
    }
    assert forall|i: int| 0 <= i < nd.len() implies nd[i].0 == od[i].0 by {
        if i < nd.len() - 1 {
            assert(nd[i] == nd.drop_last()[i]);
            assert(od[i] == od.drop_last()[i]);
        }
    }
    assert(sorted_strict(nd));
    if pushed {
        assert(s1.keys@.len() == s0.keys@.len() + 1);
        assert(forall|i: int|
            0 <= i < s0.keys@.len() ==> s1.keys@[i] == s0.keys@[i]);
        assert(s1.keys@.last()@ == k_view);
        assert(forall|j: int|
            0 <= j < s0.keys@.len() ==> (#[trigger] s0.keys@[j])@ != k_view);
    } else {
        assert(s1.keys@ == s0.keys@);
    }
    lemma_keys_sync_insert(s0.keys@, s1.keys@, s0.index@.dom(), k_view);
    assert(s1.index@.dom() =~= s0.index@.dom().insert(k_view));
    assert(keys_sync(s1.keys@, s1.index@.dom()));
    lemma_disk_append_pos(od, nd, e, c, s0.index@);
    assert(replay_pos_disk(Map::empty(), nd) == Some(s1.index@));
    assert(s1.wf());
}

impl KvStore {
    /// The length of the record the index holds for `key@`, or zero: the
    /// characters that a new write for this key turns into waste.
    pub open spec fn prior_length(&self, key: Seq<char>) -> nat {
        if self.index@.dom().contains(key) {
            self.index@[key].length as nat
        } else {
            0
        }
    }

    /// Appends one `SET` record and points the index at it: the unconditional
    /// half of [`KvStore::set`], before the compaction trigger.
    #[verifier::rlimit(100)]
    fn set_record(&mut self, key: String, value: String)
        requires
            old(self).wf(),
        ensures
            final(self).wf(),
            final(self)@ == old(self)@.insert(key@, value@),
            final(self).useless_size == sat64(
                old(self).useless_size + old(self).prior_length(key@),
            ),
            final(self).current_file_number == old(self).current_file_number,
            final(self).sealed@ == old(self).sealed@,
            final(self).current_writer.contents@ == old(self).current_writer.contents@
                + spec_encode(CommandV::SetV(key@, value@)),
            final(self).index@ == old(self).index@.insert(
                key@,
                (CommandPosition {
                    offset: old(self).current_writer.position,
                    length: spec_encode(CommandV::SetV(key@, value@)).len() as u64,
                    file_number: old(self).current_file_number,
                }),
            ),
    {
        let ghost k_view = key@;
        let ghost v_view = value@;
        let key_copy = key.clone();
        let command = Command::SET(key, value);
        let data = encode_command(&command);
        let offset = self.current_writer.get_position();
        self.current_writer.write(data.as_str());
        let length = self.current_writer.get_position() - offset;
        let file_number = self.current_file_number;
        let prior: u64 = match self.index.get(key_copy.as_str()) {
            Some(p) => p.length,
            None => 0,
        };
        let mut ghost_found: Ghost<int> = Ghost(0);
        let pushed = match find_key(&self.keys, &key_copy) {
            Some(i) => {
                ghost_found = Ghost(i as int);
                false
            },
            None => {
                self.keys.push(key_copy.clone());
                true
            },
        };
        let pos = CommandPosition { offset, length, file_number };
        self.index.insert(key_copy, pos);
        self.useless_size = sat_add_u64(self.useless_size, prior);
        self.model = Ghost(old(self).model@.insert(k_view, v_view));
        proof {
            let c = CommandV::SetV(k_view, v_view);
            let e = data@;
            assert(pos == (CommandPosition {
                offset: old(self).current_writer.position,
                length: spec_encode(CommandV::SetV(k_view, v_view)).len() as u64,
                file_number: old(self).current_file_number,
            }));
            assert(self.index@ == old(self).index@.insert(k_view, pos));
            if pushed {
                assert(self.keys@.len() == old(self).keys@.len() + 1);
                assert(forall|i: int|
                    0 <= i < old(self).keys@.len() ==> self.keys@[i] == old(self).keys@[i]);
                assert(self.keys@.last()@ == k_view);
                assert(forall|j: int|
                    0 <= j < old(self).keys@.len() ==> (#[trigger] old(self).keys@[j])@ != k_view);
            } else {
                assert(self.keys@ == old(self).keys@);
                assert(0 <= ghost_found@ < old(self).keys@.len() && (old(self).keys@[ghost_found@])@
                    == k_view);
            }
            lemma_set_step(*old(self), *self, k_view, v_view, e, pos, pushed);
            assert(self.wf());
        }
    }

    /// Maps `key` to `value`: encodes the record, appends it to the active
    /// segment, points the index at it, and counts the superseded record —
    /// if any — as waste; when the waste passes the threshold, exactly one
    /// compaction runs before returning.
    pub fn set(&mut self, key: String, value: String) -> (r: Result<(), KVStoreError>)
        requires
            old(self).wf(),
            old(self).current_file_number + 2 <= u64::MAX,
        ensures
            final(self).wf(),
            r is Ok,
            final(self)@ == old(self)@.insert(key@, value@),
            ({
                let w = sat64(old(self).useless_size + old(self).prior_length(key@));
                if w > MAX_USELESS_SIZE {
                    final(self).useless_size == 0 && final(self).current_file_number
                        == old(self).current_file_number + 2 && final(self).sealed@.len() == 1
                        && final(self).sealed@[0].number == old(self).current_file_number + 1
                        && final(self).current_writer.contents@ == Seq::<char>::empty()
                        && replay_from(Map::empty(), final(self).sealed@[0].contents@, 0) == Some(
                        final(self)@,
                    ) && disk_size(final(self).disk()) == live_size(
                        final(self).keys@,
                        final(self).index@,
                    )
                } else {
                    final(self).useless_size == w && final(self).current_file_number == old(
                        self,
                    ).current_file_number && final(self).sealed@ == old(self).sealed@ && final(self).current_writer.contents@ == old(self).current_writer.contents@ + spec_encode(
                        CommandV::SetV(key@, value@),
                    ) && final(self).index@ == old(self).index@.insert(
                        key@,
                        (CommandPosition {
                            offset: old(self).current_writer.position,
                            length: spec_encode(CommandV::SetV(key@, value@)).len() as u64,
                            file_number: old(self).current_file_number,
                        }),
                    )
                }
            }),
    {
        self.set_record(key, value);
        if self.useless_size > MAX_USELESS_SIZE {
            self.compact();
        }
        Ok(())
    }

    /// Deletes `key`: evicts its index entry, appends a `RM` record, and
    /// counts both the evicted record and the `RM` itself as waste. An
    /// absent key fails with `KeyNotFound` and writes nothing.
    pub fn remove(&mut self, key: String) -> (r: Result<(), KVStoreError>)
        requires
            old(self).wf(),
            old(self).current_file_number + 2 <= u64::MAX,
        ensures
            final(self).wf(),
            old(self)@.dom().contains(key@) ==> r is Ok && final(self)@ == old(self)@.remove(key@)
                && ({
                let w = sat64(
                    sat64(old(self).useless_size + old(self).prior_length(key@)) + 21 + key@.len(),
                );
                if w > MAX_USELESS_SIZE {
                    final(self).useless_size == 0 && final(self).current_file_number
                        == old(self).current_file_number + 2 && final(self).sealed@.len() == 1
                        && final(self).sealed@[0].number == old(self).current_file_number + 1
                        && final(self).current_writer.contents@ == Seq::<char>::empty()
                        && replay_from(Map::empty(), final(self).sealed@[0].contents@, 0) == Some(
                        final(self)@,
                    ) && disk_size(final(self).disk()) == live_size(
                        final(self).keys@,
                        final(self).index@,
                    )
                } else {
                    final(self).useless_size == w && final(self).current_file_number == old(
                        self,
                    ).current_file_number && final(self).sealed@ == old(self).sealed@ && final(self).current_writer.contents@ == old(self).current_writer.contents@ + spec_encode(
                        CommandV::RmV(key@),
                    ) && final(self).index@ == old(self).index@.remove(key@)
                }
            }),
            !old(self)@.dom().contains(key@) ==> (r matches Err(KVStoreError::KeyNotFound))
                && *final(self) == *old(self),
    {
        let ghost k_view = key@;
        if !self.index.contains_key(key.as_str()) {
            return Err(KVStoreError::KeyNotFound);
        }
        let prior: u64 = match self.index.get(key.as_str()) {
            Some(p) => p.length,
            None => 0,
        };
        self.index.remove(key.as_str());
        let ghost keys_before = self.keys@;
        let mut ghost_ir: Ghost<int> = Ghost(0);
        match find_key(&self.keys, &key) {
            Some(i) => {
                ghost_ir = Ghost(i as int);
                self.keys.remove(i);
            },
            None => {
                proof {
                    assert(old(self).index@.dom().contains(k_view));
                    let j = choose|j: int|
                        0 <= j < old(self).keys@.len() && (#[trigger] old(self).keys@[j])@
                            == k_view;
                    assert(self.keys@[j]@ == k_view);
                    assert(false);
                }
            },
        };
        self.useless_size = sat_add_u64(self.useless_size, prior);
        let command = Command::RM(key);
        let data = encode_command(&command);
        let offset = self.current_writer.get_position();
        self.current_writer.write(data.as_str());
        let rm_len = self.current_writer.get_position() - offset;
        self.useless_size = sat_add_u64(self.useless_size, rm_len);
        self.model = Ghost(old(self).model@.remove(k_view));
        proof {
            let c = CommandV::RmV(k_view);
            let e = data@;
            lemma_spec_encode_len(c);
            let s_old = old(self).current_writer.contents@;
            let od = old(self).disk();
            let nd = self.disk();
            assert(nd.drop_last() =~= od.drop_last());
            assert(nd.last() == (old(self).current_file_number, s_old + e));
            assert(od.last() == (old(self).current_file_number, s_old));
            assert((s_old + e).subrange(s_old.len() as int, (s_old + e).len() as int) =~= e);
            lemma_encode_parses(s_old + e, s_old.len() as int, c);
            lemma_disk_append(od, nd, e, c, old(self).model@);
            assert(self.index@ == old(self).index@.remove(k_view));
            assert(self.index@.dom() =~= self.model@.dom());
            assert forall|k: Seq<char>| #[trigger] self.index@.dom().contains(k) implies pos_ok(
                nd,
                self.index@[k],
                k,
                self.model@[k],
            ) by {
                assert(old(self).index@.dom().contains(k));
                assert(pos_ok(od, old(self).index@[k], k, old(self).model@[k]));
                assert(self.index@[k] == old(self).index@[k]);
                assert(self.model@[k] == old(self).model@[k]);
            }
            assert forall|i: int| 0 <= i < nd.len() implies nd[i].0 == od[i].0 by {
                if i < nd.len() - 1 {
                    assert(nd[i] == nd.drop_last()[i]);
                    assert(od[i] == od.drop_last()[i]);
                }
            }
            assert(sorted_strict(nd));
            // the keys vector after removing index `ir`
            let ir = ghost_ir@;
            assert(0 <= ir < keys_before.len() && keys_before[ir]@ == k_view);
            assert(self.keys@ == keys_before.remove(ir));
            assert forall|i: int|
                0 <= i < self.keys@.len() implies self.index@.dom().contains(
                (#[trigger] self.keys@[i])@,
            ) by {
                let j = if i < ir {
                    i
                } else {
                    i + 1
                };
                assert(self.keys@[i] == keys_before[j]);
                assert(old(self).index@.dom().contains(keys_before[j]@));
                assert(keys_before[j]@ != k_view);
            }
            assert forall|k: Seq<char>| #[trigger] self.index@.dom().contains(k) implies exists|
                i: int,
            |
                0 <= i < self.keys@.len() && (#[trigger] self.keys@[i])@ == k by {
                assert(old(self).index@.dom().contains(k));
                let j = choose|j: int|
                    0 <= j < keys_before.len() && (#[trigger] keys_before[j])@ == k;
                assert(j != ir);
                let i = if j < ir {
                    j
                } else {
                    j - 1
                };
                assert(self.keys@[i] == keys_before[j]);
                assert(self.keys@[i]@ == k);
            }
            assert forall|i: int, j: int|
                0 <= i < j < self.keys@.len() implies self.keys@[i]@ != self.keys@[j]@ by {
                let i0 = if i < ir {
                    i
                } else {
                    i + 1
                };
                let j0 = if j < ir {
                    j
                } else {
                    j + 1
                };
                assert(self.keys@[i] == keys_before[i0]);
                assert(self.keys@[j] == keys_before[j0]);
            }
            assert(rm_len as nat == e.len());
            assert(e.len() == 21 + k_view.len());
            lemma_disk_append_pos(od, nd, e, c, old(self).index@);
            assert(replay_pos_disk(Map::empty(), nd) == Some(self.index@));
            assert(self.wf());
        }
        if self.useless_size > MAX_USELESS_SIZE {
            self.compact();
        }
        Ok(())
    }

    /// Rewrites every live record into a fresh segment, verbatim, and drops
    /// all older segments; then opens one more fresh segment for future
    /// writes, so the compacted segment stays read-only. The abstract map is
    /// unchanged, the waste counter returns to zero, and afterwards the
    /// directory holds exactly the live records and one empty active
    /// segment: nothing superseded survives.
    #[verifier::rlimit(100)]
    pub fn compact(&mut self)
        requires
            old(self).wf(),
            old(self).current_file_number + 2 <= u64::MAX,
        ensures
            final(self).wf(),
            final(self)@ == old(self)@,
            final(self).useless_size == 0,
            final(self).current_file_number == old(self).current_file_number + 2,
            final(self).keys@ == old(self).keys@,
            disk_size(final(self).disk()) == live_size(old(self).keys@, old(self).index@),
            disk_size(final(self).disk()) == live_size(final(self).keys@, final(self).index@),
            final(self).sealed@.len() == 1,
            final(self).current_writer.contents@ == Seq::<char>::empty(),
            final(self).disk() == seq![
                (((old(self).current_file_number + 1) as u64), final(self).sealed@[0].contents@),
                (((old(self).current_file_number + 2) as u64), Seq::<char>::empty()),
            ],
            replay_from(Map::empty(), final(self).sealed@[0].contents@, 0) == Some(old(self)@),
            forall|k: Seq<char>|
                #[trigger] final(self).index@.dom().contains(k) ==> final(self).index@[
                    k].file_number == old(self).current_file_number + 1,
            forall|j: int|
                0 <= j < old(self).keys@.len() ==> {
                    let k = (#[trigger] old(self).keys@[j])@;
                    final(self).index@[k].offset as nat == live_size(
                        old(self).keys@.take(j),
                        old(self).index@,
                    ) && final(self).index@[k].length == old(self).index@[k].length
                },
    {
        // Seal the active segment: every existing segment becomes a copy
        // source, and a fresh segment receives the live records.
        let active_clone = self.current_writer.contents.clone();
        let sealed_num = self.current_file_number;
        self.sealed.push(Segment { number: sealed_num, contents: active_clone });
        self.current_file_number = self.current_file_number + 1;
        self.current_writer = BufWriterWithPosition::new(String::new());
        let ghost srcs = self.sealed@.map(|q: int, x: Segment| x@);
        proof {
            assert(srcs =~= old(self).disk()) by {
                assert forall|q: int| 0 <= q < srcs.len() implies srcs[q] == old(self).disk()[q] by {
                    if q < srcs.len() - 1 {
                        assert(self.sealed@[q] == old(self).sealed@[q]);
                    }
                }
            }
            assert(Seq::<Seq<char>>::empty().push(
                self.current_writer.contents@,
            ).drop_last() =~= Seq::<Seq<char>>::empty());
        }
        let ghost mut macc: Map<Seq<char>, Seq<char>> = Map::empty();
        let ghost mut pacc: Map<Seq<char>, CommandPosition> = Map::empty();
        proof {
            assert(self.keys@.take(0) =~= Seq::<String>::empty());
            assert(replay_pos_from(
                Map::<Seq<char>, CommandPosition>::empty(),
                self.current_file_number,
                self.current_writer.contents@,
                0,
            ) == Some(Map::<Seq<char>, CommandPosition>::empty())) by {
                reveal(replay_pos_from);
            }
        }
        let mut i: usize = 0;
        while i < self.keys.len()
            invariant
                old(self).wf(),
                old(self).current_file_number + 2 <= u64::MAX,
                0 <= i <= self.keys@.len(),
                self.keys@ == old(self).keys@,
                self.sealed@.map(|q: int, x: Segment| x@) == srcs,
                srcs == old(self).disk(),
                self.current_file_number == old(self).current_file_number + 1,
                self.model@ == old(self).model@,
                self.current_writer.position == self.current_writer.contents@.len(),
                replay_from(Map::empty(), self.current_writer.contents@, 0) == Some(macc),
                replay_pos_from(
                    Map::empty(),
                    self.current_file_number,
                    self.current_writer.contents@,
                    0,
                ) == Some(pacc),
                forall|k: Seq<char>|
                    #[trigger] pacc.dom().contains(k) ==> self.index@.dom().contains(k)
                        && pacc[k] == self.index@[k],
                forall|j: int| 0 <= j < i ==> pacc.dom().contains((#[trigger] self.keys@[j])@),
                forall|k: Seq<char>|
                    #[trigger] pacc.dom().contains(k) ==> exists|j: int|
                        0 <= j < i && (#[trigger] self.keys@[j])@ == k,
                self.current_writer.contents@.len() == live_size(
                    self.keys@.take(i as int),
                    old(self).index@,
                ),
                forall|k: Seq<char>|
                    #[trigger] macc.dom().contains(k) ==> old(self).model@.dom().contains(k)
                        && macc[k] == old(self).model@[k],
                forall|j: int| 0 <= j < i ==> macc.dom().contains((#[trigger] self.keys@[j])@),
                forall|k: Seq<char>|
                    #[trigger] macc.dom().contains(k) ==> exists|j: int|
                        0 <= j < i && (#[trigger] self.keys@[j])@ == k,
                self.index@.dom() =~= old(self).model@.dom(),
                forall|j: int|
                    0 <= j < i ==> {
                        let k = (#[trigger] self.keys@[j])@;
                        let p = self.index@[k];
                        p.file_number == self.current_file_number && parse_record(
                            self.current_writer.contents@,
                            p.offset as int,
                        ) == Some((CommandV::SetV(k, old(self).model@[k]), p.offset + p.length))
                            && p.offset as nat == live_size(
                            self.keys@.take(j),
                            old(self).index@,
                        ) && p.length == old(self).index@[k].length
                    },
                forall|j: int|
                    i <= j < self.keys@.len() ==> self.index@[(#[trigger] self.keys@[j])@] == old(
                        self,
                    ).index@[self.keys@[j]@],
            decreases self.keys@.len() - i,
        {
            let kk = self.keys[i].clone();
            proof {
                assert(old(self).index@.dom().contains(kk@));
            }
            let pos = match self.index.get(kk.as_str()) {
                Some(p) => *p,
                None => {
                    proof {
                        assert(false);
                    }
                    CommandPosition { offset: 0, length: 0, file_number: 0 }
                },
            };
            proof {
                assert(pos == old(self).index@[kk@]);
                assert(pos_ok(old(self).disk(), pos, kk@, old(self).model@[kk@]));
            }
            let ghost vv = old(self).model@[kk@];
            let seg_contents_str: &str = match find_segment(&self.sealed, pos.file_number) {
                Some(seg) => seg.contents.as_str(),
                None => {
                    proof {
                        assert(false);
                    }
                    ""
                },
            };
            let ghost src = seg_contents_str@;
            proof {
                assert(parse_record(src, pos.offset as int) == Some(
                    (CommandV::SetV(kk@, vv), pos.offset + pos.length),
                ));
                lemma_parse_end(src, pos.offset as int);
            }
            let slen = seg_contents_str.unicode_len();
            let piece = seg_contents_str.substring_char(
                pos.offset as usize,
                (pos.offset + pos.length) as usize,
            ).to_owned();
            let woff = self.current_writer.get_position();
            let ghost w_old = self.current_writer.contents@;
            self.current_writer.write(piece.as_str());
            let ghost idx0 = self.index@;
            self.index.insert(
                kk,
                CommandPosition { offset: woff, length: pos.length, file_number: self.current_file_number },
            );
            proof {
                let kv = self.keys@[i as int]@;
                let w_new = self.current_writer.contents@;
                let c = CommandV::SetV(kv, vv);
                assert(w_new == w_old + piece@);
                assert(w_new.subrange(woff as int, woff + pos.length) =~= src.subrange(
                    pos.offset as int,
                    pos.offset + pos.length,
                ));
                lemma_parse_agree(src, pos.offset as int, w_new, woff as int);
                assert(parse_record(w_new, woff as int) == Some((c, woff + pos.length)));
                assert(w_new.len() == woff + pos.length);
                lemma_replay_append_parsed(Map::empty(), w_old, piece@, c, 0);
                macc = macc.insert(kv, vv);
                lemma_replay_pos_append(
                    Map::empty(),
                    self.current_file_number,
                    w_old,
                    piece@,
                    c,
                    0,
                );
                assert((CommandPosition {
                    offset: w_old.len() as u64,
                    length: piece@.len() as u64,
                    file_number: self.current_file_number,
                }) == (CommandPosition {
                    offset: woff,
                    length: pos.length,
                    file_number: self.current_file_number,
                }));
                pacc = pacc.insert(
                    kv,
                    (CommandPosition {
                        offset: woff,
                        length: pos.length,
                        file_number: self.current_file_number,
                    }),
                );
                assert(replay_pos_from(Map::empty(), self.current_file_number, w_new, 0) == Some(
                    pacc,
                ));
                assert(self.keys@.take(i as int + 1).drop_last() =~= self.keys@.take(i as int));
                assert(self.keys@.take(i as int + 1).last() == self.keys@[i as int]);
                assert(w_new.len() == live_size(self.keys@.take(i as int + 1), old(self).index@));
                // records already copied stay where they are
                assert forall|j: int|
                    0 <= j < i + 1 implies {
                        let k = (#[trigger] self.keys@[j])@;
                        let p = self.index@[k];
                        p.file_number == self.current_file_number && parse_record(
                            w_new,
                            p.offset as int,
                        ) == Some((CommandV::SetV(k, old(self).model@[k]), p.offset + p.length))
                            && p.offset as nat == live_size(
                            self.keys@.take(j),
                            old(self).index@,
                        ) && p.length == old(self).index@[k].length
                    } by {
                    let k = self.keys@[j]@;
                    if j < i {
                        assert(old(self).keys@[j]@ != old(self).keys@[i as int]@);
                        assert(k != kv);
                        assert(self.index@[k] == idx0[k]);
                        lemma_parse_prefix(w_old, piece@, idx0[k].offset as int);
                    } else {
                        assert(self.index@[k] == CommandPosition {
                            offset: woff,
                            length: pos.length,
                            file_number: self.current_file_number,
                        });
                    }
                }
            }
            i = i + 1;
        }
        proof {
            assert(macc =~= old(self).model@) by {
                assert(macc.dom() =~= old(self).model@.dom()) by {
                    assert forall|k: Seq<char>|
                        old(self).model@.dom().contains(k) implies macc.dom().contains(k) by {
                        assert(old(self).index@.dom().contains(k));
                        let j = choose|j: int|
                            0 <= j < old(self).keys@.len() && (#[trigger] old(self).keys@[j])@
                                == k;
                        assert(macc.dom().contains(self.keys@[j]@));
                    }
                }
            }
        }
        // The compacted segment is sealed; future writes go to yet another
        // fresh segment, so the compacted one stays read-only.
        let compacted = Segment {
            number: self.current_file_number,
            contents: self.current_writer.contents.clone(),
        };
        let ghost c_contents = compacted.contents@;
        let mut new_sealed: Vec<Segment> = Vec::new();
        new_sealed.push(compacted);
        self.sealed = new_sealed;
        self.current_file_number = self.current_file_number + 1;
        self.current_writer = BufWriterWithPosition::new(String::new());
        self.useless_size = 0;
        proof {
            let nd = self.disk();
            let n1 = (old(self).current_file_number + 1) as u64;
            assert(nd.len() == 2);
            assert(nd[0] == (((old(self).current_file_number + 1) as u64), c_contents));
            assert(nd[1] == (((old(self).current_file_number + 2) as u64), Seq::<char>::empty()));
            assert(sorted_strict(nd));
            assert(nd.last().0 != n1);
            assert(seg_lookup(nd, n1) == seg_lookup(nd.drop_last(), n1));
            assert(nd.drop_last() =~= seq![(n1, c_contents)]);
            assert(seg_lookup(seq![(n1, c_contents)], n1) == Some(c_contents));
            assert(seg_lookup(nd, n1) == Some(c_contents));
            assert forall|k: Seq<char>| #[trigger] self.index@.dom().contains(k) implies pos_ok(
                nd,
                self.index@[k],
                k,
                self.model@[k],
            ) by {
                assert(old(self).index@.dom().contains(k));
                let j = choose|j: int|
                    0 <= j < old(self).keys@.len() && (#[trigger] old(self).keys@[j])@ == k;
                assert(self.keys@[j]@ == k);
                let p = self.index@[k];
                assert(p.file_number == n1);
                assert(parse_record(c_contents, p.offset as int) == Some(
                    (CommandV::SetV(k, old(self).model@[k]), p.offset + p.length),
                ));
                assert(seg_lookup(nd, p.file_number) == Some(c_contents));
            }
            let sc = seg_contents(nd);
            assert(sc.len() == 2);
            assert(sc.drop_last() =~= seq![c_contents]);
            assert(seq![c_contents].drop_last() =~= Seq::<Seq<char>>::empty());
            assert(replay_disk(Map::empty(), Seq::<Seq<char>>::empty()) == Some(
                Map::<Seq<char>, Seq<char>>::empty(),
            ));
            assert(replay_from(Map::empty(), c_contents, 0) == Some(macc));
            assert(replay_disk(Map::empty(), seq![c_contents]) == Some(macc));
            assert(replay_from(macc, Seq::<char>::empty(), 0) == Some(macc));
            assert(replay_disk(Map::empty(), sc) == Some(macc));
            assert(self.keys@.take(self.keys@.len() as int) =~= self.keys@);
            assert(nd =~= seq![
                (n1, c_contents),
                (((old(self).current_file_number + 2) as u64), Seq::<char>::empty()),
            ]);
            assert forall|k: Seq<char>| #[trigger] self.index@.dom().contains(k) implies
                self.index@[k].file_number == old(self).current_file_number + 1 by {
                assert(old(self).index@.dom().contains(k));
                let j = choose|j: int|
                    0 <= j < old(self).keys@.len() && (#[trigger] old(self).keys@[j])@ == k;
                assert(self.keys@[j]@ == k);
            }
            assert(forall|j: int|
                0 <= j < old(self).keys@.len() ==> (#[trigger] self.keys@[j])@ == old(
                    self,
                ).keys@[j]@);
            lemma_live_size_lengths(self.keys@, self.index@, old(self).index@);
            assert(nd.drop_last().drop_last() =~= Seq::<(u64, Seq<char>)>::empty());
            assert(disk_size(Seq::<(u64, Seq<char>)>::empty()) == 0);
            assert(nd.drop_last().last() == nd[0]);
            assert(disk_size(nd.drop_last()) == c_contents.len());
            assert(nd.last().1.len() == 0);
            assert(disk_size(nd) == c_contents.len());
            assert(disk_size(nd) == live_size(old(self).keys@, old(self).index@));
            assert(self.model@ =~= macc);
            assert(replay_disk(Map::empty(), seg_contents(self.disk())) == Some(self.model@));
            assert(pacc =~= self.index@) by {
                assert(pacc.dom() =~= self.index@.dom()) by {
                    assert forall|k: Seq<char>|
                        self.index@.dom().contains(k) implies pacc.dom().contains(k) by {
                        assert(old(self).index@.dom().contains(k));
                        let j = choose|j: int|
                            0 <= j < old(self).keys@.len() && (#[trigger] old(self).keys@[j])@
                                == k;
                        assert(pacc.dom().contains(self.keys@[j]@));
                    }
                }
            }
            assert(nd.drop_last() =~= seq![(n1, c_contents)]);
            assert(seq![(n1, c_contents)].drop_last() =~= Seq::<(u64, Seq<char>)>::empty());
            assert(replay_pos_disk(Map::empty(), Seq::<(u64, Seq<char>)>::empty()) == Some(
                Map::<Seq<char>, CommandPosition>::empty(),
            )) by {
                reveal(replay_pos_disk);
            }
            assert(replay_pos_from(Map::empty(), n1, c_contents, 0) == Some(pacc));
            assert(replay_pos_disk(Map::empty(), seq![(n1, c_contents)]) == Some(pacc)) by {
                reveal(replay_pos_disk);
            }
            assert(replay_pos_from(pacc, (old(self).current_file_number + 2) as u64, Seq::<
                char,
            >::empty(), 0) == Some(pacc)) by {
                reveal(replay_pos_from);
            }
            assert(replay_pos_disk(Map::empty(), nd) == Some(self.index@)) by {
                reveal(replay_pos_disk);
            }
            assert(self.current_writer.position == self.current_writer.contents@.len());
            assert(self.index@.dom() =~= self.model@.dom());
            assert(forall|i: int|
                0 <= i < self.keys@.len() ==> self.index@.dom().contains(
                    (#[trigger] self.keys@[i])@,
                ));
            assert forall|k: Seq<char>| #[trigger] self.index@.dom().contains(k) implies exists|
                i: int,
            |
                0 <= i < self.keys@.len() && (#[trigger] self.keys@[i])@ == k by {
                assert(old(self).index@.dom().contains(k));
                let j = choose|j: int|
                    0 <= j < old(self).keys@.len() && (#[trigger] old(self).keys@[j])@ == k;
                assert(self.keys@[j]@ == k);
            }
            assert(self.wf());
        }
    }

    /// Returns the value the key currently maps to, decoded from the record
    /// the index points at, or `None` for an absent key.
    pub fn get(&mut self, key: String) -> (r: Result<Option<String>, KVStoreError>)
        requires
            old(self).wf(),
        ensures
            *final(self) == *old(self),
            final(self).wf(),
            match r {
                Ok(opt) => match opt {
                    Some(v) => old(self)@.dom().contains(key@) && v@ == old(self)@[key@],
                    None => !old(self)@.dom().contains(key@),
                },
                Err(_) => false,
            },
    {
        let pos = match self.index.get(key.as_str()) {
            Some(p) => *p,
            None => {
                return Ok(None);
            },
        };
        let ghost d = self.disk();
        proof {
            assert(self.index@.dom().contains(key@));
            assert(pos_ok(d, pos, key@, self.model@[key@]));
        }
        let seg_str: &str = if pos.file_number == self.current_file_number {
            proof {
                assert(d.last() == (self.current_file_number, self.current_writer.contents@));
                assert(seg_lookup(d, pos.file_number) == Some(self.current_writer.contents@));
            }
            self.current_writer.contents.as_str()
        } else {
            proof {
                assert(d.drop_last() =~= self.sealed@.map(|i: int, x: Segment| x@));
            }
            match find_segment(&self.sealed, pos.file_number) {
                Some(seg) => seg.contents.as_str(),
                None => {
                    proof {
                        assert(seg_lookup(d, pos.file_number) == seg_lookup(
                            d.drop_last(),
                            pos.file_number,
                        ));
                    }
                    return Err(KVStoreError::UnknownCommandType);
                },
            }
        };
        let len = seg_str.unicode_len();
        proof {
            lemma_parse_end(seg_str@, pos.offset as int);
        }
        match decode_record(seg_str, pos.offset as usize) {
            Ok(Some((cmd, _end))) => match cmd {
                Command::SET(_, value) => Ok(Some(value)),
                Command::RM(_) => Err(KVStoreError::UnknownCommandType),
            },
            Ok(None) => Err(KVStoreError::UnknownCommandType),
            Err(e) => Err(e),
        }
    }

    /// Opens a store from a directory listing: refuses a directory of the
    /// alternate backend, ignores files that are not canonically named
    /// segments, replays the segments in ascending number order to rebuild
    /// the index, opens the writer on the highest segment (or segment `0` of
    /// an empty directory), and compacts first if the recovered waste is
    /// past the threshold.
    #[verifier::rlimit(100)]
    pub fn open(files: Vec<DirFile>) -> (r: Result<KvStore, KVStoreError>)
        requires
            forall|i: int, j: int|
                0 <= i < j < files@.len() ==> (#[trigger] files@[i]).name@ != (
                #[trigger] files@[j]).name@,
            forall|i: int|
                0 <= i < files@.len() ==> (spec_parse_name((#[trigger] files@[i]).name@) is Some
                    ==> spec_parse_name(files@[i].name@).unwrap() <= u64::MAX - 2),
        ensures
            ({
                let fv = files@.map(|i: int, f: DirFile| f@);
                let ss = sort_by_num(parsed_segs(fv));
                match r {
                    Ok(store) => !has_foreign(fv) && store.wf() && replay_disk(
                        Map::empty(),
                        seg_contents(ss),
                    ) == Some(store@) && store.useless_size <= MAX_USELESS_SIZE && (ss.len() == 0
                        ==> store.useless_size == 0) && ({
                        let base = if ss.len() == 0 {
                            0u64
                        } else {
                            ss.last().0
                        };
                        let rw = recovered_waste(seg_contents(ss));
                        if rw > MAX_USELESS_SIZE {
                            // recovery left too much waste: exactly one
                            // compaction ran before returning
                            store.current_file_number == base + 2 && store.useless_size == 0
                                && store.sealed@.len() == 1 && store.sealed@[0].number == base + 1
                                && store.current_writer.contents@ == Seq::<char>::empty()
                                && replay_from(Map::empty(), store.sealed@[0].contents@, 0)
                                == Some(store@)
                        } else {
                            // the store is the sorted segment set itself, the
                            // writer on the highest segment, the counter the
                            // accrued waste
                            store.useless_size == rw && store.current_file_number == base && (
                            if ss.len() == 0 {
                                store.disk() == seq![(0u64, Seq::<char>::empty())]
                            } else {
                                store.disk() == ss
                            })
                        }
                    }),
                    Err(e) => match e {
                        KVStoreError::ChangeEngineError => has_foreign(fv),
                        KVStoreError::Serde(_) => !has_foreign(fv) && replay_disk(
                            Map::empty(),
                            seg_contents(ss),
                        ) is None,
                        _ => false,
                    },
                }
            }),
    {
        let ghost fv = files@.map(|i: int, f: DirFile| f@);
        // refuse a directory initialized by the alternate backend
        let mut i: usize = 0;
        while i < files.len()
            invariant
                0 <= i <= files@.len(),
                fv == files@.map(|i: int, f: DirFile| f@),
                forall|j: int| 0 <= j < i ==> !foreign_marker((#[trigger] fv[j]).0),
            decreases files@.len() - i,
        {
            let nm = files[i].name.as_str();
            if str_eq(nm, "db") || str_eq(nm, "conf") {
                proof {
                    assert(fv[i as int].0 == files@[i as int].name@);
                    assert(foreign_marker(fv[i as int].0));
                }
                return Err(KVStoreError::ChangeEngineError);
            }
            proof {
                assert(fv[i as int].0 == files@[i as int].name@);
            }
            i = i + 1;
        }
        proof {
            assert(!has_foreign(fv));
        }
        // collect the segment files
        let mut segs: Vec<Segment> = Vec::new();
        let mut i: usize = 0;
        while i < files.len()
            invariant
                0 <= i <= files@.len(),
                fv == files@.map(|i: int, f: DirFile| f@),
                segs@.map(|q: int, x: Segment| x@) == parsed_segs(fv.take(i as int)),
            decreases files@.len() - i,
        {
            let ghost pre = segs@.map(|q: int, x: Segment| x@);
            proof {
                assert(fv.take(i as int + 1).drop_last() =~= fv.take(i as int));
                assert(fv.take(i as int + 1).last() == fv[i as int]);
                assert(fv[i as int].0 == files@[i as int].name@);
                assert(fv[i as int].1 == files@[i as int].contents@);
            }
            match parse_file_name(files[i].name.as_str()) {
                Some(n) => {
                    let contents = files[i].contents.clone();
                    segs.push(Segment { number: n, contents });
                    proof {
                        assert(segs@.map(|q: int, x: Segment| x@) =~= pre.push(
                            (n, fv[i as int].1),
                        ));
                    }
                },
                None => {},
            }
            i = i + 1;
        }
        let ghost ps = parsed_segs(fv);
        proof {
            assert(fv.take(files@.len() as int) =~= fv);
            assert(forall|i: int, j: int| 0 <= i < j < fv.len() ==> fv[i].0 != fv[j].0) by {
                assert(forall|i: int|
                    0 <= i < fv.len() ==> (#[trigger] fv[i]).0 == files@[i].name@);
            }
            lemma_parsed_nodup(fv);
        }
        let segs = sort_segs(segs);
        let ghost ss = sort_by_num(ps);
        proof {
            lemma_sort_props(ps);
            assert(segs@.map(|q: int, x: Segment| x@) == ss);
            assert forall|q: int| 0 <= q < ss.len() implies (#[trigger] ss[q]).0 <= u64::MAX
                - 2 by {
                assert(has_num(ss, ss[q].0)) by {
                    assert((0 <= q < ss.len() && ss[q].0 == ss[q].0));
                }
                assert(has_num(ps, ss[q].0));
                lemma_parsed_origin(fv, ss[q].0);
                let i = choose|i: int|
                    0 <= i < fv.len() && spec_parse_name((#[trigger] fv[i]).0) == Some(ss[q].0);
                assert(fv[i].0 == files@[i].name@);
            }
        }
        // replay the segments in ascending order
        let mut index: StringHashMap<CommandPosition> = StringHashMap::new();
        let mut keys: Vec<String> = Vec::new();
        let mut useless: u64 = 0;
        let ghost mut m: Map<Seq<char>, Seq<char>> = Map::empty();
        let ghost mut lm: Map<Seq<char>, nat> = Map::empty();
        proof {
            assert(ss.take(0) =~= Seq::<(u64, Seq<char>)>::empty());
            assert(seg_contents(ss.take(0)) =~= Seq::<Seq<char>>::empty());
            assert(index@.dom() =~= m.dom());
            assert(index@.dom() =~= lm.dom());
            assert(replay_pos_disk(Map::empty(), ss.take(0)) == Some(index@)) by {
                reveal(replay_pos_disk);
            }
            assert(replay_waste_disk(Map::empty(), 0, seg_contents(ss.take(0))) == Some(
                (lm, useless as int),
            )) by {
                reveal(replay_waste_disk);
            }
        }
        let mut si: usize = 0;
        while si < segs.len()
            invariant
                0 <= si <= segs@.len(),
                segs@.map(|q: int, x: Segment| x@) == ss,
                sorted_strict(ss),
                forall|q: int| 0 <= q < ss.len() ==> (#[trigger] ss[q]).0 <= u64::MAX - 2,
                ss == sort_by_num(ps),
                ps == parsed_segs(fv),
                fv == files@.map(|i: int, f: DirFile| f@),
                !has_foreign(fv),
                replay_disk(Map::empty(), seg_contents(ss.take(si as int))) == Some(m),
                replay_waste_disk(Map::empty(), 0, seg_contents(ss.take(si as int))) == Some(
                    (lm, useless as int),
                ),
                replay_pos_disk(Map::empty(), ss.take(si as int)) == Some(index@),
                index@.dom() =~= m.dom(),
                index@.dom() =~= lm.dom(),
                forall|k: Seq<char>|
                    #[trigger] index@.dom().contains(k) ==> lm[k] == index@[k].length as nat,
                keys_sync(keys@, index@.dom()),
                forall|k: Seq<char>|
                    #[trigger] index@.dom().contains(k) ==> pos_ok(
                        ss.take(si as int),
                        index@[k],
                        k,
                        m[k],
                    ),
            decreases segs@.len() - si,
        {
            let ghost dprev = ss.take(si as int);
            let ghost dcur = ss.take(si as int + 1);
            proof {
                assert(dcur.drop_last() =~= dprev);
                assert(dcur.last() == ss[si as int]);
                assert forall|k: Seq<char>| #[trigger] index@.dom().contains(k) implies pos_ok(
                    dcur,
                    index@[k],
                    k,
                    m[k],
                ) by {
                    let p = index@[k];
                    lemma_seg_lookup_has(dprev, p.file_number);
                    let w = choose|w: int|
                        0 <= w < dprev.len() && (#[trigger] dprev[w]).0 == p.file_number;
                    assert(dprev[w] == ss[w]);
                    assert(ss[w].0 < ss[si as int].0);
                    assert(seg_lookup(dcur, p.file_number) == seg_lookup(dprev, p.file_number));
                }
            }
            let segnum = segs[si].number;
            let cs: &str = segs[si].contents.as_str();
            let clen = cs.unicode_len();
            proof {
                assert(segs@[si as int]@ == ss[si as int]);
            }
            let ghost mseg = m;
            let ghost lmseg = lm;
            let ghost useg: int = useless as int;
            let ghost idxseg = index@;
            let mut off: usize = 0;
            while off < clen
                invariant
                    0 <= off <= clen,
                    clen == cs@.len(),
                    cs@ == ss[si as int].1,
                    segnum == ss[si as int].0,
                    0 <= si < segs@.len(),
                    segs@.map(|q: int, x: Segment| x@) == ss,
                    sorted_strict(ss),
                    forall|q: int| 0 <= q < ss.len() ==> (#[trigger] ss[q]).0 <= u64::MAX - 2,
                    ss == sort_by_num(ps),
                    ps == parsed_segs(fv),
                    fv == files@.map(|i: int, f: DirFile| f@),
                    !has_foreign(fv),
                    replay_disk(Map::empty(), seg_contents(ss.take(si as int))) == Some(mseg),
                    replay_waste_disk(Map::empty(), 0, seg_contents(ss.take(si as int))) == Some(
                        (lmseg, useg),
                    ),
                    replay_from(mseg, cs@, 0) == replay_from(m, cs@, off as int),
                    replay_waste_from(lmseg, useg, cs@, 0) == replay_waste_from(
                        lm,
                        useless as int,
                        cs@,
                        off as int,
                    ),
                    replay_pos_disk(Map::empty(), ss.take(si as int)) == Some(idxseg),
                    replay_pos_from(idxseg, segnum, cs@, 0) == replay_pos_from(
                        index@,
                        segnum,
                        cs@,
                        off as int,
                    ),
                    index@.dom() =~= m.dom(),
                    index@.dom() =~= lm.dom(),
                    forall|k: Seq<char>|
                        #[trigger] index@.dom().contains(k) ==> lm[k] == index@[k].length as nat,
                    keys_sync(keys@, index@.dom()),
                    forall|k: Seq<char>|
                        #[trigger] index@.dom().contains(k) ==> pos_ok(
                            ss.take(si as int + 1),
                            index@[k],
                            k,
                            m[k],
                        ),
                decreases clen - off,
            {
                let ghost dcur = ss.take(si as int + 1);
                match decode_record(cs, off) {
                    Err(_e) => {
                        proof {
                            assert(replay_from(m, cs@, off as int) is None);
                            assert(seg_contents(dcur).drop_last() =~= seg_contents(
                                ss.take(si as int),
                            ));
                            assert(seg_contents(dcur).last() == cs@);
                            assert(replay_disk(Map::empty(), seg_contents(dcur)) is None);
                            assert(seg_contents(ss).take(si as int + 1) =~= seg_contents(dcur));
                            lemma_replay_none_prefix(seg_contents(ss), si as int + 1);
                        }
                        return Err(KVStoreError::Serde("malformed segment".to_owned()));
                    },
                    Ok(None) => {
                        proof {
                            assert(false);
                        }
                    },
                    Ok(Some((cmd, end))) => {
                        let ghost mpre = m;
                        let ghost lmpre = lm;
                        let ghost upre: int = useless as int;
                        let ghost keys_pre = keys@;
                        let ghost idx_pre = index@;
                        match cmd {
                            Command::SET(k, v) => {
                                let ghost kk = k@;
                                let ghost vv = v@;
                                let prior: u64 = match index.get(k.as_str()) {
                                    Some(p) => p.length,
                                    None => 0,
                                };
                                let pushed = match find_key(&keys, &k) {
                                    Some(_) => false,
                                    None => {
                                        keys.push(k.clone());
                                        true
                                    },
                                };
                                let newpos = CommandPosition {
                                    offset: off as u64,
                                    length: (end - off) as u64,
                                    file_number: segnum,
                                };
                                index.insert(k, newpos);
                                useless = sat_add_u64(useless, prior);
                                proof {
                                    m = mpre.insert(kk, vv);
                                    lm = lmpre.insert(kk, (end - off) as nat);
                                    assert(prior as int == if lmpre.dom().contains(kk) {
                                        lmpre[kk] as int
                                    } else {
                                        0
                                    });
                                    assert(useless as int == sat64(
                                        upre + if lmpre.dom().contains(kk) {
                                            lmpre[kk] as int
                                        } else {
                                            0
                                        },
                                    ));
                                    assert(replay_waste_from(lmpre, upre, cs@, off as int)
                                        == replay_waste_from(lm, useless as int, cs@, end as int))
                                        by {
                                        reveal(replay_waste_from);
                                    }
                                    assert(index@ == idx_pre.insert(kk, newpos));
                                    assert(replay_pos_from(idx_pre, segnum, cs@, off as int)
                                        == replay_pos_from(index@, segnum, cs@, end as int)) by {
                                        reveal(replay_pos_from);
                                    }
                                    assert(index@.dom() =~= m.dom());
                                    assert(index@.dom() =~= lm.dom());
                                    assert forall|k2: Seq<char>|
                                        #[trigger] index@.dom().contains(k2) implies lm[k2]
                                        == index@[k2].length as nat by {
                                        if k2 != kk {
                                            assert(idx_pre.dom().contains(k2));
                                        }
                                    }
                                    lemma_keys_sync_insert(keys_pre, keys@, idx_pre.dom(), kk);
                                    assert(index@.dom() =~= idx_pre.dom().insert(kk));
                                    assert(keys_sync(keys@, index@.dom()));
                                    assert(seg_lookup(dcur, segnum) == Some(cs@));
                                    assert(pos_ok(dcur, newpos, kk, vv));
                                    assert forall|k2: Seq<char>|
                                        #[trigger] index@.dom().contains(k2) implies pos_ok(
                                        dcur,
                                        index@[k2],
                                        k2,
                                        m[k2],
                                    ) by {
                                        if k2 != kk {
                                            assert(idx_pre.dom().contains(k2));
                                            assert(pos_ok(dcur, idx_pre[k2], k2, mpre[k2]));
                                        }
                                    }
                                }
                            },
                            Command::RM(k) => {
                                let ghost kk = k@;
                                if index.contains_key(k.as_str()) {
                                    let prior: u64 = match index.get(k.as_str()) {
                                        Some(p) => p.length,
                                        None => 0,
                                    };
                                    index.remove(k.as_str());
                                    let mut ghost_ir: Ghost<int> = Ghost(0);
                                    match find_key(&keys, &k) {
                                        Some(fi) => {
                                            ghost_ir = Ghost(fi as int);
                                            keys.remove(fi);
                                        },
                                        None => {
                                            proof {
                                                let j = choose|j: int|
                                                    0 <= j < keys_pre.len() && (
                                                    #[trigger] keys_pre[j])@ == kk;
                                                assert(keys@[j]@ == kk);
                                                assert(false);
                                            }
                                        },
                                    };
                                    useless = sat_add_u64(useless, prior);
                                    proof {
                                        m = mpre.remove(kk);
                                        lm = lmpre.remove(kk);
                                        assert(prior as int == lmpre[kk] as int);
                                        assert(index@ == idx_pre.remove(kk));
                                        assert(replay_pos_from(idx_pre, segnum, cs@, off as int)
                                            == replay_pos_from(index@, segnum, cs@, end as int)) by {
                                            reveal(replay_pos_from);
                                        }
                                        assert(index@.dom() =~= m.dom());
                                        assert(index@.dom() =~= lm.dom());
                                        assert forall|k2: Seq<char>|
                                            #[trigger] index@.dom().contains(k2) implies lm[k2]
                                            == index@[k2].length as nat by {
                                            assert(idx_pre.dom().contains(k2));
                                        }
                                        lemma_keys_sync_remove(
                                            keys_pre,
                                            keys@,
                                            idx_pre.dom(),
                                            kk,
                                            ghost_ir@,
                                        );
                                        assert(index@.dom() =~= idx_pre.dom().remove(kk));
                                        assert(keys_sync(keys@, index@.dom()));
                                        assert forall|k2: Seq<char>|
                                            #[trigger] index@.dom().contains(k2) implies pos_ok(
                                            dcur,
                                            index@[k2],
                                            k2,
                                            m[k2],
                                        ) by {
                                            assert(idx_pre.dom().contains(k2));
                                            assert(pos_ok(dcur, idx_pre[k2], k2, mpre[k2]));
                                        }
                                    }
                                } else {
                                    proof {
                                        m = mpre.remove(kk);
                                        lm = lmpre.remove(kk);
                                        assert(m =~= mpre);
                                        assert(lm =~= lmpre);
                                        assert(!lmpre.dom().contains(kk));
                                        assert(idx_pre.remove(kk) =~= idx_pre);
                                        assert(replay_pos_from(idx_pre, segnum, cs@, off as int)
                                            == replay_pos_from(index@, segnum, cs@, end as int)) by {
                                            reveal(replay_pos_from);
                                        }
                                        assert(index@.dom() =~= m.dom());
                                        assert(index@.dom() =~= lm.dom());
                                    }
                                }
                                let reclen = (end - off) as u64;
                                useless = sat_add_u64(useless, reclen);
                                proof {
                                    // both paths accrued the evicted record (or
                                    // nothing) and then the RM record itself
                                    assert(sat64(upre + 0) == upre);
                                    assert(useless as int == sat64(
                                        sat64(
                                            upre + if lmpre.dom().contains(kk) {
                                                lmpre[kk] as int
                                            } else {
                                                0
                                            },
                                        ) + (end - off),
                                    ));
                                    assert(replay_waste_from(lmpre, upre, cs@, off as int)
                                        == replay_waste_from(lm, useless as int, cs@, end as int))
                                        by {
                                        reveal(replay_waste_from);
                                    }
                                }
                            },
                        }
                        proof {
                            assert(replay_from(mpre, cs@, off as int) == replay_from(
                                m,
                                cs@,
                                end as int,
                            ));
                        }
                        off = end;
                    },
                }
            }
            proof {
                assert(replay_from(m, cs@, clen as int) == Some(m));
                assert(replay_waste_from(lm, useless as int, cs@, clen as int) == Some(
                    (lm, useless as int),
                )) by {
                    reveal(replay_waste_from);
                }
                assert(seg_contents(dcur).drop_last() =~= seg_contents(ss.take(si as int)));
                assert(seg_contents(dcur).last() == cs@);
                assert(replay_disk(Map::empty(), seg_contents(dcur)) == Some(m));
                assert(replay_waste_disk(Map::empty(), 0, seg_contents(dcur)) == Some(
                    (lm, useless as int),
                )) by {
                    reveal(replay_waste_disk);
                }
                assert(replay_pos_from(index@, segnum, cs@, clen as int) == Some(index@)) by {
                    reveal(replay_pos_from);
                }
                assert(dcur.last() == (segnum, cs@));
                assert(replay_pos_disk(Map::empty(), dcur) == Some(index@)) by {
                    reveal(replay_pos_disk);
                }
            }
            si = si + 1;
        }
        proof {
            assert(ss.take(segs@.len() as int) =~= ss);
            assert(replay_waste_disk(Map::empty(), 0, seg_contents(ss)) == Some(
                (lm, useless as int),
            ));
            assert(recovered_waste(seg_contents(ss)) == useless as int);
            assert(replay_pos_disk(Map::empty(), ss) == Some(index@));
        }
        // the highest segment becomes the active one
        let mut store = if segs.len() == 0 {
            let store = KvStore {
                index,
                keys,
                sealed: Vec::new(),
                current_writer: BufWriterWithPosition::new(String::new()),
                current_file_number: 0,
                useless_size: useless,
                model: Ghost(m),
            };
            proof {
                assert(ss.len() == 0);
                assert(seg_contents(ss) =~= Seq::<Seq<char>>::empty());
                assert(m =~= Map::<Seq<char>, Seq<char>>::empty());
                let nd = store.disk();
                assert(nd.len() == 1);
                assert(seg_contents(nd).drop_last() =~= Seq::<Seq<char>>::empty());
                assert(seg_contents(nd).last() == Seq::<char>::empty());
                assert(replay_from(m, Seq::<char>::empty(), 0) == Some(m));
                assert(replay_disk(Map::empty(), seg_contents(nd)) == Some(m));
                assert(nd.drop_last() =~= Seq::<(u64, Seq<char>)>::empty());
                assert(replay_pos_from(
                    Map::<Seq<char>, CommandPosition>::empty(),
                    0u64,
                    Seq::<char>::empty(),
                    0,
                ) == Some(Map::<Seq<char>, CommandPosition>::empty())) by {
                    reveal(replay_pos_from);
                }
                assert(store.index@ =~= Map::<Seq<char>, CommandPosition>::empty());
                assert(replay_pos_disk(Map::empty(), nd) == Some(store.index@)) by {
                    reveal(replay_pos_disk);
                }
                assert forall|k: Seq<char>| #[trigger] store.index@.dom().contains(k) implies
                    pos_ok(nd, store.index@[k], k, store.model@[k]) by {
                    assert(m.dom().contains(k));
                    assert(false);
                }
                assert(store.disk() =~= seq![(0u64, Seq::<char>::empty())]);
                assert(store.wf());
            }
            store
        } else {
            let mut segs = segs;
            let last = match segs.pop() {
                Some(x) => x,
                None => {
                    proof {
                        assert(false);
                    }
                    Segment { number: 0, contents: String::new() }
                },
            };
            let ghost last_v = last@;
            let store = KvStore {
                index,
                keys,
                sealed: segs,
                current_writer: BufWriterWithPosition::new(last.contents),
                current_file_number: last.number,
                useless_size: useless,
                model: Ghost(m),
            };
            proof {
                assert(last_v == ss.last());
                assert(store.sealed@.map(|q: int, x: Segment| x@) =~= ss.drop_last());
                assert(store.disk() =~= ss) by {
                    assert(store.disk().drop_last() =~= store.sealed@.map(
                        |q: int, x: Segment| x@,
                    ));
                    assert(store.disk().last() == (last_v.0, last_v.1));
                }
                assert(store.current_writer.position == store.current_writer.contents@.len());
                assert(replay_pos_disk(Map::empty(), store.disk()) == Some(store.index@));
                assert(sorted_strict(store.disk()));
                assert(store.index@.dom() =~= store.model@.dom());
                assert(keys_sync(store.keys@, store.index@.dom()));
                assert forall|k: Seq<char>| #[trigger] store.index@.dom().contains(k) implies
                    pos_ok(store.disk(), store.index@[k], k, store.model@[k]) by {
                    assert(pos_ok(ss, store.index@[k], k, store.model@[k]));
                }
                assert(replay_disk(Map::empty(), seg_contents(store.disk())) == Some(
                    store.model@,
                ));
                assert(store.wf());
            }
            store
        };
        let ghost pre_store = store;
        if store.useless_size > MAX_USELESS_SIZE {
            proof {
                if ss.len() > 0 {
                    assert(ss[ss.len() - 1].0 <= u64::MAX - 2);
                }
            }
            store.compact();
        }
        proof {
            let base = if ss.len() == 0 {
                0u64
            } else {
                ss.last().0
            };
            let rw = recovered_waste(seg_contents(ss));
            assert(pre_store.current_file_number == base);
            assert(rw == pre_store.useless_size as int);
            assert(ss.len() == 0 ==> pre_store.useless_size == 0);
            assert(!has_foreign(fv));
            assert(store.wf());
            assert(replay_disk(Map::empty(), seg_contents(ss)) == Some(store@));
            assert(if rw > MAX_USELESS_SIZE {
                store.current_file_number == base + 2 && store.useless_size == 0
                    && store.sealed@.len() == 1 && store.sealed@[0].number == base + 1
                    && store.current_writer.contents@ == Seq::<char>::empty() && replay_from(
                    Map::empty(),
                    store.sealed@[0].contents@,
                    0,
                ) == Some(store@)
            } else {
                store.useless_size == rw && store.current_file_number == base && (if ss.len()
                    == 0 {
                    store.disk() == seq![(0u64, Seq::<char>::empty())]
                } else {
                    store.disk() == ss
                })
            });
            assert(store.useless_size <= MAX_USELESS_SIZE);
        }
        Ok(store)
    }

    /// The store's directory image: one entry per segment, under its
    /// canonical file name, sealed segments first and the active one last.
    pub fn files(&self) -> (r: Vec<DirFile>)
        ensures
            r@.len() == self.disk().len(),
            forall|i: int|
                0 <= i < r@.len() ==> (#[trigger] r@[i]).name@ == spec_file_name(
                    self.disk()[i].0,
                ) && r@[i].contents@ == self.disk()[i].1,
    {
        let mut out: Vec<DirFile> = Vec::new();
        let mut i: usize = 0;
        while i < self.sealed.len()
            invariant
                0 <= i <= self.sealed@.len(),
                out@.len() == i,
                forall|j: int|
                    0 <= j < i ==> (#[trigger] out@[j]).name@ == spec_file_name(self.disk()[j].0)
                        && out@[j].contents@ == self.disk()[j].1,
            decreases self.sealed@.len() - i,
        {
            let name = file_name_of(self.sealed[i].number);
            let contents = self.sealed[i].contents.clone();
            out.push(DirFile { name, contents });
            proof {
                assert(self.disk()[i as int] == self.sealed@[i as int]@);
            }
            i = i + 1;
        }
        let name = file_name_of(self.current_file_number);
        let contents = self.current_writer.contents.clone();
        out.push(DirFile { name, contents });
        proof {
            assert(self.disk()[self.disk().len() - 1] == (
                self.current_file_number,
                self.current_writer.contents@,
            ));
        }
        out
    }
}

} // verus!
