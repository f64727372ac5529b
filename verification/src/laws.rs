//! The store's laws, stated and proved once over the specs that the
//! operations' own contracts use.

use vstd::prelude::*;

use crate::kv::{
    has_foreign, lemma_file_name_round, lemma_name_not_foreign, lemma_sort_id, parsed_segs,
    pos_ok, replay_disk, replay_pos_disk, seg_contents, sort_by_num, spec_file_name,
    spec_parse_name, DirFile, KvStore,
};

verus! {

/// Every key the store reports maps to the value of the live `SET` record
/// its index points at; the index is exactly the map of latest live
/// locations the log determines; and replaying the whole log yields exactly
/// the store's map: no superseded record, and no later `SET` or `RM`, can
/// decide a `get`.
pub proof fn lemma_index_points_at_live_record(s: &KvStore, k: Seq<char>)
    requires
        s.wf(),
        s@.dom().contains(k),
    ensures
        pos_ok(s.disk(), s.index@[k], k, s@[k]),
        replay_disk(Map::empty(), seg_contents(s.disk())) == Some(s@),
        replay_pos_disk(Map::empty(), s.disk()) == Some(s.index@),
{
    assert(s.index@.dom().contains(k));
}

/// After `set(k, v)`, `get(k)` returns `Some(v)`: `set` turns the map `m`
/// into `m.insert(k, v)`, and `get` returns exactly the map's value.
pub proof fn lemma_set_then_get(m: Map<Seq<char>, Seq<char>>, k: Seq<char>, v: Seq<char>)
    ensures
        m.insert(k, v).dom().contains(k),
        m.insert(k, v)[k] == v,
{
}

/// A second `set` of the same key wins: after `set(k, v1); set(k, v2)`,
/// `get(k)` returns `Some(v2)`.
pub proof fn lemma_set_set_get(
    m: Map<Seq<char>, Seq<char>>,
    k: Seq<char>,
    v1: Seq<char>,
    v2: Seq<char>,
)
    ensures
        m.insert(k, v1).insert(k, v2).dom().contains(k),
        m.insert(k, v1).insert(k, v2)[k] == v2,
{
}

/// After `set(k, v); remove(k)`, `get(k)` returns `None`.
pub proof fn lemma_set_remove_get(m: Map<Seq<char>, Seq<char>>, k: Seq<char>, v: Seq<char>)
    ensures
        !m.insert(k, v).remove(k).dom().contains(k),
{
}

/// Setting a key again after removing it restores it: after
/// `set(k, v); remove(k); set(k, v)`, `get(k)` returns `Some(v)`.
pub proof fn lemma_set_remove_set_get(m: Map<Seq<char>, Seq<char>>, k: Seq<char>, v: Seq<char>)
    ensures
        m.insert(k, v).remove(k).insert(k, v).dom().contains(k),
        m.insert(k, v).remove(k).insert(k, v)[k] == v,
{
}

/// Reopening a store from its own directory image rebuilds the same map:
/// the image's file names are pairwise distinct and parse back to their
/// segment numbers, none is a file of the alternate backend, the parsed
/// segments are already in ascending order, and their replay is exactly the
/// store's map. Together with `open`'s contract this says a drop and reopen
/// — a crash — loses nothing, and that the reopened store's segment number
/// never falls back.
pub proof fn lemma_reopen_recovers(s: &KvStore, fs: Seq<DirFile>)
    requires
        s.wf(),
        s.current_file_number <= u64::MAX - 2,
        fs.len() == s.disk().len(),
        forall|i: int|
            0 <= i < fs.len() ==> (#[trigger] fs[i]).name@ == spec_file_name(s.disk()[i].0) && fs[
                i].contents@ == s.disk()[i].1,
    ensures
        forall|i: int, j: int|
            0 <= i < j < fs.len() ==> (#[trigger] fs[i]).name@ != (#[trigger] fs[j]).name@,
        forall|i: int|
            0 <= i < fs.len() ==> (spec_parse_name((#[trigger] fs[i]).name@) is Some
                ==> spec_parse_name(fs[i].name@).unwrap() <= u64::MAX - 2),
        !has_foreign(fs.map(|i: int, f: DirFile| f@)),
        sort_by_num(parsed_segs(fs.map(|i: int, f: DirFile| f@))) == s.disk(),
        replay_disk(
            Map::empty(),
            seg_contents(sort_by_num(parsed_segs(fs.map(|i: int, f: DirFile| f@)))),
        ) == Some(s@),
{
    let d = s.disk();
    let fv = fs.map(|i: int, f: DirFile| f@);
    assert(d.last().0 == s.current_file_number);
    assert forall|i: int| 0 <= i < fs.len() implies spec_parse_name((#[trigger] fs[i]).name@)
        == Some(d[i].0) by {
        lemma_file_name_round(d[i].0);
    }
    assert forall|i: int, j: int|
        0 <= i < j < fs.len() implies (#[trigger] fs[i]).name@ != (#[trigger] fs[j]).name@ by {
        assert(d[i].0 < d[j].0);
    }
    assert forall|i: int|
        0 <= i < fs.len() implies (spec_parse_name((#[trigger] fs[i]).name@) is Some
        ==> spec_parse_name(fs[i].name@).unwrap() <= u64::MAX - 2) by {
        if i < fs.len() - 1 {
            assert(d[i].0 < d[d.len() - 1].0);
        }
    }
    assert(!has_foreign(fv)) by {
        assert forall|i: int| 0 <= i < fv.len() implies !crate::kv::foreign_marker(
            (#[trigger] fv[i]).0,
        ) by {
            lemma_name_not_foreign(d[i].0);
            assert(fv[i].0 == fs[i].name@);
        }
    }
    lemma_parsed_matches(fs, d);
    assert(parsed_segs(fv) == d);
    lemma_sort_id(d);
}

/// A listing whose names are the canonical segment names parses back to the
/// segment sequence itself.
proof fn lemma_parsed_matches(fs: Seq<DirFile>, d: Seq<(u64, Seq<char>)>)
    requires
        fs.len() == d.len(),
        forall|i: int|
            0 <= i < fs.len() ==> (#[trigger] fs[i]).name@ == spec_file_name(d[i].0) && fs[
                i].contents@ == d[i].1,
    ensures
        parsed_segs(fs.map(|i: int, f: DirFile| f@)) == d,
    decreases fs.len(),
{
    let fv = fs.map(|i: int, f: DirFile| f@);
    if fs.len() == 0 {
        assert(parsed_segs(fv) =~= d);
    } else {
        let fsd = fs.drop_last();
        let dd = d.drop_last();
        assert(forall|i: int| 0 <= i < fsd.len() ==> fsd[i] == fs[i]);
        assert(forall|i: int| 0 <= i < dd.len() ==> dd[i] == d[i]);
        lemma_parsed_matches(fsd, dd);
        assert(fv.drop_last() =~= fsd.map(|i: int, f: DirFile| f@));
        assert(fv.last() == (fs.last().name@, fs.last().contents@)) by {
            assert(fv[fv.len() - 1] == fs[fs.len() - 1]@);
        }
        lemma_file_name_round(d.last().0);
        assert(fs[fs.len() - 1].name@ == spec_file_name(d[d.len() - 1].0));
        assert(spec_parse_name(fv.last().0) == Some(d.last().0));
        assert(parsed_segs(fv) == parsed_segs(fv.drop_last()).push((d.last().0, fv.last().1)));
        assert(fv.last().1 == d.last().1);
        assert(parsed_segs(fv) =~= d);
    }
}

} // verus!
