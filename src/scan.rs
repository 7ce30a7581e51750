//! The files found under a directory: which of them are large enough to be
//! listed, and the order in which they are listed.
use vstd::prelude::*;
use vstd::multiset::Multiset;

verus! {

broadcast use {vstd::seq_lib::group_to_multiset_ensures, vstd::multiset::group_multiset_axioms};

/// A regular file found by the walk: its path, and its size in bytes where its
/// metadata could be read (`None` where that failed).
#[derive(Clone, Debug)]
pub struct FoundFile {
    pub path: String,
    pub size_bytes: Option<u64>,
}

/// A file at least as large as the threshold: its path and its size in bytes.
#[derive(Clone, Debug)]
pub struct FileInfo {
    pub path: String,
    pub size_bytes: u64,
}

impl View for FoundFile {
    type V = (Seq<char>, Option<u64>);

    open spec fn view(&self) -> (Seq<char>, Option<u64>) {
        (self.path@, self.size_bytes)
    }
}

impl View for FileInfo {
    type V = (Seq<char>, u64);

    open spec fn view(&self) -> (Seq<char>, u64) {
        (self.path@, self.size_bytes)
    }
}

pub open spec fn found_views(s: Seq<FoundFile>) -> Seq<(Seq<char>, Option<u64>)> {
    s.map_values(|f: FoundFile| f@)
}

pub open spec fn info_views(s: Seq<FileInfo>) -> Seq<(Seq<char>, u64)> {
    s.map_values(|f: FileInfo| f@)
}

/// A found file is listed when its size could be read and is at least
/// `min_size_bytes`: a file of exactly the threshold is listed.
pub open spec fn is_big(f: (Seq<char>, Option<u64>), min_size_bytes: u64) -> bool {
    match f.1 {
        Some(b) => b >= min_size_bytes,
        None => false,
    }
}

/// The record that lists a found file whose size was read.
pub open spec fn record_of(f: (Seq<char>, Option<u64>)) -> (Seq<char>, u64) {
    (f.0, f.1->0)
}

/// The records of the found files that are listed, in the order found.
pub open spec fn big_files(found: Seq<(Seq<char>, Option<u64>)>, min_size_bytes: u64) -> Seq<
    (Seq<char>, u64),
>
    decreases found.len(),
{
    if found.len() == 0 {
        Seq::empty()
    } else {
        let rest = big_files(found.drop_last(), min_size_bytes);
        if is_big(found.last(), min_size_bytes) {
            rest.push(record_of(found.last()))
        } else {
            rest
        }
    }
}

/// What a found file adds to the records: itself, where it is listed.
pub open spec fn listed(f: (Seq<char>, Option<u64>), min_size_bytes: u64) -> Multiset<
    (Seq<char>, u64),
> {
    if is_big(f, min_size_bytes) {
        Multiset::singleton(record_of(f))
    } else {
        Multiset::empty()
    }
}

proof fn lemma_big_files_remove(s: Seq<(Seq<char>, Option<u64>)>, i: int, min_size_bytes: u64)
    requires
        0 <= i < s.len(),
    ensures
        big_files(s, min_size_bytes).to_multiset() == big_files(
            s.remove(i),
            min_size_bytes,
        ).to_multiset().add(listed(s[i], min_size_bytes)),
    decreases s.len(),
{
    if i == s.len() - 1 {
        assert(s.remove(i) =~= s.drop_last());
        let rest = big_files(s.drop_last(), min_size_bytes);
        if is_big(s.last(), min_size_bytes) {
            assert(rest.push(record_of(s.last())).to_multiset() =~= rest.to_multiset().add(
                listed(s[i], min_size_bytes),
            ));
        } else {
            assert(rest.to_multiset() =~= rest.to_multiset().add(listed(s[i], min_size_bytes)));
        }
    } else {
        lemma_big_files_remove(s.drop_last(), i, min_size_bytes);
        assert(s.remove(i).drop_last() =~= s.drop_last().remove(i));
        assert(s.remove(i).last() == s.last());
        assert(s.drop_last()[i] == s[i]);
        let a = big_files(s.drop_last().remove(i), min_size_bytes);
        let l = listed(s[i], min_size_bytes);
        if is_big(s.last(), min_size_bytes) {
            assert(a.push(record_of(s.last())).to_multiset().add(l) =~= a.to_multiset().add(
                l,
            ).insert(record_of(s.last())));
        } else {
        }
    }
}

/// The files that are listed, and how many were found, do not depend on the
/// order in which the walk found them: the same files found in two orders give
/// the same records, as a multiset, and the same count.
pub proof fn lemma_order_independent(
    a: Seq<(Seq<char>, Option<u64>)>,
    b: Seq<(Seq<char>, Option<u64>)>,
    min_size_bytes: u64,
)
    requires
        a.to_multiset() == b.to_multiset(),
    ensures
        big_files(a, min_size_bytes).to_multiset() == big_files(b, min_size_bytes).to_multiset(),
        a.len() == b.len(),
    decreases a.len(),
{
    if a.len() == 0 {
        assert(b.to_multiset().len() == 0);
        assert(b.len() == 0);
        assert(b =~= a);
    } else {
        let x = a.last();
        assert(a.to_multiset().count(x) > 0);
        assert(b.contains(x));
        let i = choose|i: int| 0 <= i < b.len() && b[i] == x;
        let n = (a.len() - 1) as int;
        assert(a.remove(n) =~= a.drop_last());
        assert(a.drop_last().to_multiset() == a.to_multiset().remove(x));
        assert(b.remove(i).to_multiset() == b.to_multiset().remove(x));
        lemma_order_independent(a.drop_last(), b.remove(i), min_size_bytes);
        lemma_big_files_remove(a, n, min_size_bytes);
        lemma_big_files_remove(b, i, min_size_bytes);
    }
}

/// Every record that is listed is at least `min_size_bytes` large.
pub proof fn lemma_listed_sizes(found: Seq<(Seq<char>, Option<u64>)>, min_size_bytes: u64)
    ensures
        forall|k: int|
            0 <= k < big_files(found, min_size_bytes).len() ==> #[trigger] big_files(
                found,
                min_size_bytes,
            )[k].1 >= min_size_bytes,
    decreases found.len(),
{
    if found.len() > 0 {
        lemma_listed_sizes(found.drop_last(), min_size_bytes);
        let rest = big_files(found.drop_last(), min_size_bytes);
        let all = big_files(found, min_size_bytes);
        assert forall|k: int| 0 <= k < all.len() implies #[trigger] all[k].1 >= min_size_bytes by {
            if k < rest.len() {
                assert(all[k] == rest[k]);
            }
        }
    }
}

/// A found file whose size was read and is at least `min_size_bytes` is listed.
pub proof fn lemma_big_file_listed(
    found: Seq<(Seq<char>, Option<u64>)>,
    i: int,
    min_size_bytes: u64,
)
    requires
        0 <= i < found.len(),
        is_big(found[i], min_size_bytes),
    ensures
        big_files(found, min_size_bytes).contains(record_of(found[i])),
    decreases found.len(),
{
    let rest = big_files(found.drop_last(), min_size_bytes);
    if i == found.len() - 1 {
        assert(big_files(found, min_size_bytes) == rest.push(record_of(found[i])));
        assert(big_files(found, min_size_bytes)[rest.len() as int] == record_of(found[i]));
    } else {
        assert(found.drop_last()[i] == found[i]);
        lemma_big_file_listed(found.drop_last(), i, min_size_bytes);
        let k = choose|k: int| 0 <= k < rest.len() && rest[k] == record_of(found[i]);
        if is_big(found.last(), min_size_bytes) {
            assert(big_files(found, min_size_bytes)[k] == record_of(found[i]));
        }
    }
}

/// The threshold is inclusive: a found file of exactly `min_size_bytes` is
/// listed, and one of a byte less is not.
pub proof fn lemma_threshold_boundary(
    found: Seq<(Seq<char>, Option<u64>)>,
    i: int,
    min_size_bytes: u64,
)
    requires
        0 <= i < found.len(),
    ensures
        found[i].1 == Some(min_size_bytes) ==> big_files(found, min_size_bytes).contains(
            (found[i].0, min_size_bytes),
        ),
        min_size_bytes > 0 && found[i].1 == Some((min_size_bytes - 1) as u64) ==> !big_files(
            found,
            min_size_bytes,
        ).contains((found[i].0, (min_size_bytes - 1) as u64)),
{
    if found[i].1 == Some(min_size_bytes) {
        lemma_big_file_listed(found, i, min_size_bytes);
    }
    lemma_listed_sizes(found, min_size_bytes);
    let all = big_files(found, min_size_bytes);
    let r = (found[i].0, (min_size_bytes - 1) as u64);
    if min_size_bytes > 0 && all.contains(r) {
        let k = choose|k: int| 0 <= k < all.len() && all[k] == r;
        assert(all[k].1 >= min_size_bytes);
    }
}

/// `s` lists sizes from the largest down.
pub open spec fn is_largest_first(s: Seq<FileInfo>) -> bool {
    forall|i: int, j: int| 0 <= i < j < s.len() ==> s[i].size_bytes >= s[j].size_bytes
}

/// Keeps the found files whose size was read and is at least `min_size_bytes`,
/// as records in the order found, and counts every file found, listed or not.
pub fn select_big_files(found: &Vec<FoundFile>, min_size_bytes: u64) -> (r: (Vec<FileInfo>, usize))
    ensures
        info_views(r.0@) == big_files(found_views(found@), min_size_bytes),
        r.1 == found@.len(),
{
    let mut out: Vec<FileInfo> = Vec::new();
    let mut i: usize = 0;
    while i < found.len()
        invariant
            i <= found@.len(),
            info_views(out@) == big_files(found_views(found@.take(i as int)), min_size_bytes),
        decreases found@.len() - i,
    {
        let f = &found[i];
        let ghost before = found_views(found@.take(i as int));
        proof {
            assert(found_views(found@.take(i + 1)).drop_last() =~= before);
            assert(found_views(found@.take(i + 1)).last() == f@);
        }
        match f.size_bytes {
            Some(b) => {
                if b >= min_size_bytes {
                    let rec = FileInfo { path: f.path.clone(), size_bytes: b };
                    let ghost old_out = out@;
                    out.push(rec);
                    proof {
                        assert(info_views(out@) =~= info_views(old_out).push(rec@));
                    }
                }
            },
            None => {},
        }
        i = i + 1;
    }
    proof {
        assert(found@.take(i as int) =~= found@);
    }
    (out, i)
}

/// Puts `files` in order of size, the largest first; files of equal size may
/// come in any order. The files themselves are kept, none added or lost.
pub fn sort_largest_first(files: &mut Vec<FileInfo>)
    ensures
        final(files)@.to_multiset() == old(files)@.to_multiset(),
        is_largest_first(final(files)@),
{
    let ghost all = files@.to_multiset();
    let mut out: Vec<FileInfo> = Vec::new();
    while files.len() > 0
        invariant
            out@.to_multiset().add(files@.to_multiset()) == all,
            is_largest_first(out@),
        decreases files@.len(),
    {
        let ghost rest = files@;
        let x = files.pop().unwrap();
        proof {
            assert(rest =~= files@.push(x));
        }
        let mut pos: usize = 0;
        while pos < out.len() && out[pos].size_bytes >= x.size_bytes
            invariant
                pos <= out@.len(),
                forall|j: int| 0 <= j < pos ==> out@[j].size_bytes >= x.size_bytes,
            decreases out@.len() - pos,
        {
            pos = pos + 1;
        }
        let ghost before = out@;
        out.insert(pos, x);
        proof {
            assert(out@ == before.insert(pos as int, x));
            assert forall|i: int, j: int| 0 <= i < j < out@.len() implies out@[i].size_bytes
                >= out@[j].size_bytes by {
                if j < pos {
                } else if j == pos {
                } else if i < pos {
                    assert(out@[j] == before[j - 1]);
                    assert(before[pos as int].size_bytes < x.size_bytes);
                } else if i == pos {
                    assert(out@[j] == before[j - 1]);
                    assert(before[pos as int].size_bytes < x.size_bytes);
                } else {
                    assert(out@[i] == before[i - 1]);
                    assert(out@[j] == before[j - 1]);
                }
            }
            assert(out@.to_multiset().add(files@.to_multiset()) =~= all);
        }
    }
    proof {
        assert(files@.to_multiset() =~= Multiset::empty());
    }
    *files = out;
}

/// Reordering records reorders their views alike.
proof fn lemma_views_permuted(a: Seq<FileInfo>, b: Seq<FileInfo>)
    requires
        a.to_multiset() == b.to_multiset(),
    ensures
        info_views(a).to_multiset() == info_views(b).to_multiset(),
    decreases a.len(),
{
    if a.len() == 0 {
        assert(b.to_multiset().len() == 0);
        assert(b.len() == 0);
        assert(info_views(a) =~= info_views(b));
    } else {
        let x = a.last();
        assert(a.to_multiset().count(x) > 0);
        assert(b.contains(x));
        let i = choose|i: int| 0 <= i < b.len() && b[i] == x;
        let n = (a.len() - 1) as int;
        assert(a.remove(n) =~= a.drop_last());
        assert(a.drop_last().to_multiset() == a.to_multiset().remove(x));
        assert(b.remove(i).to_multiset() == b.to_multiset().remove(x));
        lemma_views_permuted(a.drop_last(), b.remove(i));
        let va = info_views(a);
        let vb = info_views(b);
        assert(info_views(a.drop_last()) =~= va.remove(n));
        assert(info_views(b.remove(i)) =~= vb.remove(i));
        assert(va[n] == x@);
        assert(vb[i] == x@);
        assert(va.to_multiset().count(x@) > 0);
        assert(vb.to_multiset().count(x@) > 0);
        assert(va.to_multiset() =~= va.remove(n).to_multiset().insert(x@));
        assert(vb.to_multiset() =~= vb.remove(i).to_multiset().insert(x@));
    }
}

/// The outcome of a scan: the listed files, the largest first, and how many
/// files were found in all.
#[derive(Clone, Debug)]
pub struct ScanResult {
    pub records: Vec<FileInfo>,
    pub scanned_count: usize,
}

/// Lists the found files that are at least `min_size_bytes` large, the largest
/// first, and counts every file found.
pub fn scan_result(found: &Vec<FoundFile>, min_size_bytes: u64) -> (r: ScanResult)
    ensures
        info_views(r.records@).to_multiset() == big_files(
            found_views(found@),
            min_size_bytes,
        ).to_multiset(),
        is_largest_first(r.records@),
        r.scanned_count == found@.len(),
        r.records@.len() <= r.scanned_count,
{
    let (mut records, scanned_count) = select_big_files(found, min_size_bytes);
    let ghost picked = records@;
    sort_largest_first(&mut records);
    proof {
        lemma_views_permuted(records@, picked);
        lemma_big_files_len(found_views(found@), min_size_bytes);
        assert(records@.len() == records@.to_multiset().len());
        assert(picked.len() == picked.to_multiset().len());
        assert(info_views(picked).len() == picked.len());
    }
    ScanResult { records, scanned_count }
}

/// No more files are listed than were found.
pub proof fn lemma_big_files_len(found: Seq<(Seq<char>, Option<u64>)>, min_size_bytes: u64)
    ensures
        big_files(found, min_size_bytes).len() <= found.len(),
    decreases found.len(),
{
    if found.len() > 0 {
        lemma_big_files_len(found.drop_last(), min_size_bytes);
    }
}

} // verus!
