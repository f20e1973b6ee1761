use vstd::prelude::*;

use crate::storage::StorageError;
use crate::text::push_char;

verus! {

/// Folder of the pads' audio inside an exported archive.
pub open spec fn audio_prefix() -> Seq<char> {
    "audio/"@
}

/// The file to restore for an archive entry: the part of its name after
/// "audio/", for a file entry whose name starts with it and has more after.
pub open spec fn audio_entry_spec(name: Seq<char>, is_dir: bool) -> Option<Seq<char>> {
    if name.len() > 6 && name.take(6) == audio_prefix() && !is_dir {
        Some(name.skip(6))
    } else {
        None
    }
}

/// Which archive entries restore an audio file, and under which name: only
/// files under "audio/", with the prefix taken off; other entries (the
/// configuration, directories, anything else) are skipped.
pub fn audio_entry_name(name: &str, is_dir: bool) -> (r: Option<String>)
    ensures
        match r {
            Some(f) => audio_entry_spec(name@, is_dir) == Some(f@),
            None => audio_entry_spec(name@, is_dir) is None,
        },
{
    proof {
        reveal_strlit("audio/");
    }
    let n = name.unicode_len();
    if n <= 6 || is_dir {
        return None;
    }
    let prefix = "audio/";
    let mut i: usize = 0;
    while i < 6
        invariant
            i <= 6,
            n == name@.len(),
            n > 6,
            prefix@ == audio_prefix(),
            prefix@.len() == 6,
            forall|j: int| 0 <= j < i ==> name@[j] == prefix@[j],
        decreases 6 - i,
    {
        if name.get_char(i) != prefix.get_char(i) {
            assert(name@.take(6)[i as int] != audio_prefix()[i as int]);
            return None;
        }
        i = i + 1;
    }
    assert(name@.take(6) =~= audio_prefix());
    let mut out = String::new();
    let mut k: usize = 6;
    while k < n
        invariant
            6 <= k <= n,
            n == name@.len(),
            out@ == name@.subrange(6, k as int),
        decreases n - k,
    {
        out = push_char(out, name.get_char(k));
        assert(name@.subrange(6, k + 1) =~= name@.subrange(6, k as int).push(name@[k as int]));
        k = k + 1;
    }
    assert(name@.subrange(6, n as int) =~= name@.skip(6));
    Some(out)
}

/// The names and directory flags of archive entries, as plain values.
pub open spec fn entries_view(es: Seq<(String, bool)>) -> Seq<(Seq<char>, bool)> {
    es.map_values(|e: (String, bool)| (e.0@, e.1))
}

/// The audio files that entries `k..` of an archive restore: the index and
/// file name of each entry that restores one, in archive order.
pub open spec fn restored_from(es: Seq<(Seq<char>, bool)>, k: int) -> Seq<(int, Seq<char>)>
    decreases es.len() - k,
{
    if k < 0 || k >= es.len() {
        Seq::empty()
    } else {
        match audio_entry_spec(es[k].0, es[k].1) {
            Some(f) => seq![(k, f)] + restored_from(es, k + 1),
            None => restored_from(es, k + 1),
        }
    }
}

/// A restore writes exactly the files under "audio/": each planned write is
/// an entry, not a directory, named "audio/" followed by the (non-empty) file
/// name; every such entry is planned; the writes follow the archive order.
pub proof fn lemma_restored_entries(es: Seq<(Seq<char>, bool)>, k: int)
    requires
        0 <= k,
    ensures
        forall|t: int|
            0 <= t < restored_from(es, k).len() ==> {
                let (i, f) = #[trigger] restored_from(es, k)[t];
                &&& k <= i < es.len()
                &&& !es[i].1
                &&& f.len() > 0
                &&& es[i].0 == "audio/"@ + f
            },
        forall|t1: int, t2: int|
            0 <= t1 < t2 < restored_from(es, k).len() ==> (#[trigger] restored_from(es, k)[t1]).0
                < (#[trigger] restored_from(es, k)[t2]).0,
        forall|i: int|
            k <= i < es.len() && !es[i].1 && #[trigger] es[i].0.len() > 6 && es[i].0.take(6) == "audio/"@
                ==> restored_from(es, k).contains((i, es[i].0.skip(6))),
    decreases es.len() - k,
{
    reveal_strlit("audio/");
    if k < es.len() {
        lemma_restored_entries(es, k + 1);
        let rest = restored_from(es, k + 1);
        let r = restored_from(es, k);
        let name = es[k].0;
        match audio_entry_spec(name, es[k].1) {
            Some(f) => {
                assert(r == seq![(k, f)] + rest);
                assert(name =~= "audio/"@ + f);
                assert forall|t: int| 0 <= t < r.len() implies {
                    let (i, g) = #[trigger] r[t];
                    &&& k <= i < es.len()
                    &&& !es[i].1
                    &&& g.len() > 0
                    &&& es[i].0 == "audio/"@ + g
                } by {
                    if t > 0 {
                        assert(r[t] == rest[t - 1]);
                    }
                }
                assert forall|t1: int, t2: int| 0 <= t1 < t2 < r.len() implies (#[trigger] r[t1]).0 < (#[trigger] r[t2]).0 by {
                    assert(r[t2] == rest[t2 - 1]);
                    if t1 > 0 {
                        assert(r[t1] == rest[t1 - 1]);
                    }
                }
                assert forall|i: int|
                    k <= i < es.len() && !es[i].1 && #[trigger] es[i].0.len() > 6 && es[i].0.take(6) == "audio/"@
                    implies r.contains((i, es[i].0.skip(6))) by {
                    if i == k {
                        assert(r[0] == (k, name.skip(6)));
                    } else {
                        let t = choose|t: int| 0 <= t < rest.len() && rest[t] == (i, es[i].0.skip(6));
                        assert(r[t + 1] == rest[t]);
                    }
                }
            },
            None => {
                assert(r == rest);
            },
        }
    }
}

/// The index and file name of each planned write, as plain values.
pub open spec fn plan_view(p: Seq<(usize, String)>) -> Seq<(int, Seq<char>)> {
    p.map_values(|e: (usize, String)| (e.0 as int, e.1@))
}

/// What restoring an archive writes. The archive's configuration is checked
/// before anything is written: when the check failed, nothing is to be
/// written and its error comes back; otherwise every entry under "audio/"
/// that is a file is to be written, by index, under its name without the
/// prefix (the configuration itself is written last, by the caller).
pub fn restore_plan(entries: &[(String, bool)], config_check: Result<(), StorageError>) -> (r: Result<
    Vec<(usize, String)>,
    StorageError,
>)
    ensures
        match config_check {
            Err(e) => r matches Err(e2) && e2 == e,
            Ok(_) => r matches Ok(plan) && plan_view(plan@) == restored_from(entries_view(entries@), 0),
        },
{
    if let Err(e) = config_check {
        return Err(e);
    }
    let ghost es = entries_view(entries@);
    let mut plan: Vec<(usize, String)> = Vec::new();
    let mut k: usize = 0;
    while k < entries.len()
        invariant
            k <= entries@.len(),
            es == entries_view(entries@),
            plan_view(plan@) + restored_from(es, k as int) == restored_from(es, 0),
        decreases entries@.len() - k,
    {
        let ghost before = plan_view(plan@);
        assert(es[k as int] == (entries@[k as int].0@, entries@[k as int].1));
        match audio_entry_name(entries[k].0.as_str(), entries[k].1) {
            Some(f) => {
                plan.push((k, f));
                assert(plan_view(plan@) =~= before.push((k as int, plan@[plan@.len() - 1].1@)));
                assert(before.push((k as int, plan@[plan@.len() - 1].1@)) + restored_from(es, k + 1) =~= before
                    + restored_from(es, k as int));
            },
            None => {},
        }
        k = k + 1;
    }
    assert(restored_from(es, k as int) =~= Seq::<(int, Seq<char>)>::empty());
    assert(plan_view(plan@) + restored_from(es, k as int) =~= plan_view(plan@));
    Ok(plan)
}

} // verus!
