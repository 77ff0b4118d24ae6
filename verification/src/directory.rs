//! Directory comparison: the listings of two trees keyed by relative path,
//! their sorted union, and the state of each relative path.
use vstd::prelude::*;
use crate::cancel::shared_cancelled;
use crate::compare::DEFAULT_BUFFER_SIZE;
use crate::error::{CompareError, CompareErrorKind};
use crate::order::{
    components_view, lemma_path_irreflexive, lemma_path_total, lemma_path_transitive, order_paths,
    path_less, Order,
};
use std::sync::Arc;
use std::sync::atomic::AtomicBool;

verus! {

/// How a comparison of two directories is run: the buffer size of file
/// comparisons and a flag that cancels the comparison when raised.
#[derive(Clone, Debug)]
pub struct DirectoryCompareOptions {
    pub buffer_size: usize,
    pub cancellation: Option<Arc<AtomicBool>>,
}

impl Default for DirectoryCompareOptions {
    fn default() -> (o: Self)
        ensures
            o.buffer_size == DEFAULT_BUFFER_SIZE,
            o.cancellation is None,
    {
        DirectoryCompareOptions { buffer_size: DEFAULT_BUFFER_SIZE, cancellation: None }
    }
}

/// Whether the comparison was asked to stop. What a present flag holds is
/// up to other threads, so only the absent flag's answer is stated.
pub fn cancelled(options: &DirectoryCompareOptions) -> (c: bool)
    ensures
        options.cancellation is None ==> !c,
{
    shared_cancelled(&options.cancellation)
}

/// What a directory entry is; symbolic links are reported as links and
/// never followed.
#[derive(Clone, Copy, Debug, PartialEq, Eq, Structural)]
pub enum DirectoryEntryKind {
    File,
    Directory,
    Symlink,
    Other,
}

/// The outcome for one relative path.
#[derive(Debug, PartialEq, Eq)]
pub enum DirectoryEntryState {
    Same,
    Different,
    LeftOnly,
    RightOnly,
    TypeMismatch,
    Error(CompareError),
}

/// One relative path of the union of two trees, by its components' bytes.
#[derive(Debug, PartialEq, Eq)]
pub struct DirectoryEntry {
    pub relative_path: Vec<Vec<u8>>,
    pub kind: DirectoryEntryKind,
    pub state: DirectoryEntryState,
}

/// The entries of a directory comparison in path order, and whether the
/// comparison stopped early on request.
#[derive(Debug, PartialEq, Eq)]
pub struct DirectoryDiff {
    pub entries: Vec<DirectoryEntry>,
    pub cancelled: bool,
}

/// The kind that a listing records for a path: its kind, or the error that
/// reading it gave.
pub type Item = Result<DirectoryEntryKind, CompareError>;

/// A copy of an item.
pub fn copy_item(item: &Item) -> (c: Item)
    ensures
        c == *item,
{
    match item {
        Ok(k) => Ok(*k),
        Err(e) => Err(e.clone()),
    }
}

/// A copy of a path's components.
pub fn copy_path(p: &[Vec<u8>]) -> (c: Vec<Vec<u8>>)
    ensures
        components_view(c@) == components_view(p@),
{
    let mut c: Vec<Vec<u8>> = Vec::new();
    let mut i: usize = 0;
    while i < p.len()
        invariant
            i <= p.len(),
            components_view(c@) == components_view(p@).take(i as int),
        decreases p.len() - i,
    {
        let mut comp: Vec<u8> = Vec::new();
        let mut j: usize = 0;
        while j < p[i].len()
            invariant
                i < p.len(),
                j <= p@[i as int].len(),
                comp@ == p@[i as int]@.take(j as int),
            decreases p@[i as int].len() - j,
        {
            comp.push(p[i][j]);
            assert(comp@ =~= p@[i as int]@.take(j + 1));
            j = j + 1;
        }
        assert(comp@ =~= p@[i as int]@);
        let ghost before = components_view(c@);
        c.push(comp);
        assert(components_view(c@) =~= before.push(p@[i as int]@));
        assert(components_view(c@) =~= components_view(p@).take(i + 1));
        i = i + 1;
    }
    assert(components_view(p@).take(p.len() as int) =~= components_view(p@));
    c
}

/// The kind of an entry from its file type, as `symlink_metadata` reports it:
/// a link before anything else, then a file, then a directory.
pub fn entry_kind(is_symlink: bool, is_file: bool, is_dir: bool) -> (k: DirectoryEntryKind)
    ensures
        k == (if is_symlink {
            DirectoryEntryKind::Symlink
        } else if is_file {
            DirectoryEntryKind::File
        } else if is_dir {
            DirectoryEntryKind::Directory
        } else {
            DirectoryEntryKind::Other
        }),
{
    if is_symlink {
        DirectoryEntryKind::Symlink
    } else if is_file {
        DirectoryEntryKind::File
    } else if is_dir {
        DirectoryEntryKind::Directory
    } else {
        DirectoryEntryKind::Other
    }
}

/// Checks that a compared root is a directory.
pub fn validate_directory(path: &str, is_dir: bool) -> (r: Result<(), CompareError>)
    ensures
        is_dir <==> r is Ok,
        r matches Err(e) ==> (e.path matches Some(p) && p@ == path@ && e.kind
            == CompareErrorKind::NotDirectory && e.message@ == "path is not a directory"@),
{
    if is_dir {
        Ok(())
    } else {
        Err(
            CompareError {
                path: Some(path.to_owned()),
                kind: CompareErrorKind::NotDirectory,
                message: "path is not a directory".to_owned(),
            },
        )
    }
}

/// A path of a listing and what was recorded for it.
#[derive(Debug)]
pub struct ListingEntry {
    pub path: Vec<Vec<u8>>,
    pub item: Item,
}

/// The paths of one tree, each once, in path order.
#[derive(Debug)]
pub struct Listing {
    pub entries: Vec<ListingEntry>,
}

/// The keys of listing entries.
pub open spec fn entry_keys(es: Seq<ListingEntry>) -> Seq<Seq<Seq<u8>>> {
    es.map_values(|e: ListingEntry| components_view(e.path@))
}

/// Each key comes before every later key.
pub open spec fn strictly_sorted(ks: Seq<Seq<Seq<u8>>>) -> bool {
    forall|i: int, j: int| 0 <= i < j < ks.len() ==> path_less(#[trigger] ks[i], #[trigger] ks[j])
}

/// What the entries record for path `k`, where they hold it (the last
/// entry with that key).
pub open spec fn lookup(es: Seq<ListingEntry>, k: Seq<Seq<u8>>) -> Option<Item>
    decreases es.len(),
{
    if es.len() == 0 {
        None
    } else if components_view(es.last().path@) == k {
        Some(es.last().item)
    } else {
        lookup(es.drop_last(), k)
    }
}

/// A path that no entry holds is not found.
pub proof fn lemma_lookup_none(es: Seq<ListingEntry>, k: Seq<Seq<u8>>)
    requires
        forall|i: int| 0 <= i < es.len() ==> #[trigger] entry_keys(es)[i] != k,
    ensures
        lookup(es, k) is None,
    decreases es.len(),
{
    if es.len() > 0 {
        assert(entry_keys(es)[es.len() - 1] != k);
        assert forall|i: int| 0 <= i < es.drop_last().len() implies #[trigger] entry_keys(es.drop_last())[i] != k by {
            assert(entry_keys(es.drop_last())[i] == entry_keys(es)[i]);
        }
        lemma_lookup_none(es.drop_last(), k);
    }
}

/// In a sorted sequence, a key is found at one index only.
pub proof fn lemma_sorted_unique(ks: Seq<Seq<Seq<u8>>>, i: int, j: int)
    requires
        strictly_sorted(ks),
        0 <= i < ks.len(),
        0 <= j < ks.len(),
        ks[i] == ks[j],
    ensures
        i == j,
{
    if i < j {
        lemma_path_irreflexive(ks[i]);
    } else if j < i {
        lemma_path_irreflexive(ks[i]);
    }
}

/// In sorted entries, the lookup of the key at index `i` finds entry `i`.
pub proof fn lemma_lookup_at(es: Seq<ListingEntry>, i: int)
    requires
        strictly_sorted(entry_keys(es)),
        0 <= i < es.len(),
    ensures
        lookup(es, entry_keys(es)[i]) == Some(es[i].item),
    decreases es.len(),
{
    let k = entry_keys(es)[i];
    let n = es.len() - 1;
    if i != n {
        assert(entry_keys(es)[n] == components_view(es.last().path@));
        if entry_keys(es)[n] == k {
            lemma_sorted_unique(entry_keys(es), i, n);
        }
        let d = es.drop_last();
        assert(entry_keys(d) =~= entry_keys(es).drop_last());
        lemma_lookup_at(d, i);
    }
}

impl Listing {
    /// The listing holds each path once, in path order.
    pub open spec fn wf(self) -> bool {
        strictly_sorted(entry_keys(self.entries@))
    }

    /// What the listing records for path `k`.
    pub open spec fn get_spec(self, k: Seq<Seq<u8>>) -> Option<Item> {
        lookup(self.entries@, k)
    }

    /// An empty listing.
    pub fn new() -> (l: Listing)
        ensures
            l.wf(),
            forall|k: Seq<Seq<u8>>| l.get_spec(k) is None,
    {
        Listing { entries: Vec::new() }
    }

    /// The index at which `path` stands or would stand.
    fn position(&self, path: &[Vec<u8>]) -> (pos: usize)
        requires
            self.wf(),
        ensures
            pos <= self.entries.len(),
            forall|i: int| 0 <= i < pos ==> path_less(#[trigger] entry_keys(self.entries@)[i], components_view(path@)),
            forall|i: int| pos <= i < self.entries.len() ==> !path_less(#[trigger] entry_keys(self.entries@)[i], components_view(path@)),
    {
        let ghost ks = entry_keys(self.entries@);
        let ghost k = components_view(path@);
        let mut lo: usize = 0;
        let mut hi: usize = self.entries.len();
        while lo < hi
            invariant
                lo <= hi <= self.entries.len(),
                ks == entry_keys(self.entries@),
                k == components_view(path@),
                strictly_sorted(ks),
                forall|i: int| 0 <= i < lo ==> path_less(#[trigger] ks[i], k),
                forall|i: int| hi <= i < ks.len() ==> !path_less(#[trigger] ks[i], k),
            decreases hi - lo,
        {
            let mid = lo + (hi - lo) / 2;
            assert(ks[mid as int] == components_view(self.entries@[mid as int].path@));
            match order_paths(self.entries[mid].path.as_slice(), path) {
                Order::Less => {
                    assert forall|i: int| 0 <= i < mid + 1 implies path_less(#[trigger] ks[i], k) by {
                        if i < mid {
                            lemma_path_transitive(ks[i], ks[mid as int], k);
                        }
                    }
                    lo = mid + 1;
                },
                _ => {
                    assert forall|i: int| mid <= i < ks.len() implies !path_less(#[trigger] ks[i], k) by {
                        if i > mid {
                            lemma_path_total(ks[i], k);
                            lemma_path_total(ks[mid as int], k);
                            if path_less(ks[i], k) {
                                lemma_path_transitive(ks[mid as int], ks[i], k);
                                lemma_path_total(ks[mid as int], k);
                                lemma_path_irreflexive(k);
                            }
                        }
                    }
                    hi = mid;
                },
            }
        }
        lo
    }

    /// Records `item` for `path`, replacing what was recorded for it.
    pub fn insert(&mut self, path: Vec<Vec<u8>>, item: Item)
        requires
            old(self).wf(),
        ensures
            final(self).wf(),
            forall|k: Seq<Seq<u8>>| #[trigger] final(self).get_spec(k) == (if k == components_view(path@) {
                Some(item)
            } else {
                old(self).get_spec(k)
            }),
    {
        let ghost k = components_view(path@);
        let ghost ks = entry_keys(self.entries@);
        let ghost old_es = self.entries@;
        let pos = self.position(path.as_slice());
        let found = pos < self.entries.len() && match order_paths(self.entries[pos].path.as_slice(), path.as_slice()) {
            Order::Equal => true,
            _ => false,
        };
        if found {
            assert(ks[pos as int] == k);
            self.entries.set(pos, ListingEntry { path, item });
            let ghost es = self.entries@;
            assert(entry_keys(es) =~= ks);
            assert forall|q: Seq<Seq<u8>>| #[trigger] lookup(es, q) == (if q == k { Some(item) } else { lookup(old_es, q) }) by {
                lemma_lookup_at(es, pos as int);
                assert(entry_keys(es)[pos as int] == k);
                if q != k {
                    if exists|i: int| 0 <= i < es.len() && #[trigger] entry_keys(es)[i] == q {
                        let i = choose|i: int| 0 <= i < es.len() && #[trigger] entry_keys(es)[i] == q;
                        lemma_lookup_at(es, i);
                        lemma_lookup_at(old_es, i);
                        assert(i != pos);
                        assert(es[i] == old_es[i]);
                    } else {
                        lemma_lookup_none(es, q);
                        lemma_lookup_none(old_es, q);
                    }
                }
            }
        } else {
            proof {
                if pos < ks.len() {
                    lemma_path_total(ks[pos as int], k);
                }
            }
            self.entries.insert(pos, ListingEntry { path, item });
            let ghost es = self.entries@;
            assert(entry_keys(es) =~= ks.insert(pos as int, k));
            assert(strictly_sorted(entry_keys(es))) by {
                let nks = entry_keys(es);
                assert forall|i: int, j: int| 0 <= i < j < nks.len() implies path_less(#[trigger] nks[i], #[trigger] nks[j]) by {
                    if i < pos && j == pos {
                    } else if i < pos && j > pos {
                        lemma_path_total(ks[j - 1], k);
                        lemma_path_transitive(ks[i], k, ks[j - 1]);
                    } else if i == pos {
                        lemma_path_total(ks[j - 1], k);
                        if j - 1 > pos {
                            lemma_path_total(ks[pos as int], k);
                            lemma_path_transitive(k, ks[pos as int], ks[j - 1]);
                        }
                    } else if i > pos {
                        assert(nks[i] == ks[i - 1] && nks[j] == ks[j - 1]);
                    }
                }
            }
            assert forall|q: Seq<Seq<u8>>| #[trigger] lookup(es, q) == (if q == k { Some(item) } else { lookup(old_es, q) }) by {
                lemma_lookup_at(es, pos as int);
                assert(entry_keys(es)[pos as int] == k);
                if q != k {
                    if exists|i: int| 0 <= i < es.len() && #[trigger] entry_keys(es)[i] == q {
                        let i = choose|i: int| 0 <= i < es.len() && #[trigger] entry_keys(es)[i] == q;
                        lemma_lookup_at(es, i);
                        assert(i != pos);
                        let oi = if i < pos { i } else { i - 1 };
                        assert(es[i] == old_es[oi]);
                        assert(entry_keys(old_es)[oi] == q);
                        lemma_lookup_at(old_es, oi);
                    } else {
                        lemma_lookup_none(es, q);
                        assert forall|i: int| 0 <= i < old_es.len() implies #[trigger] entry_keys(old_es)[i] != q by {
                            let ni = if i < pos { i } else { i + 1 };
                            assert(es[ni] == old_es[i]);
                            assert(entry_keys(es)[ni] == entry_keys(old_es)[i]);
                        }
                        lemma_lookup_none(old_es, q);
                    }
                }
            }
        }
    }
}

/// A relative path of the union of two listings, with what each side
/// recorded for it.
#[derive(Debug)]
pub struct PathPair {
    pub path: Vec<Vec<u8>>,
    pub left: Option<Item>,
    pub right: Option<Item>,
}

/// The keys of path pairs.
pub open spec fn pair_keys(ps: Seq<PathPair>) -> Seq<Seq<Seq<u8>>> {
    ps.map_values(|p: PathPair| components_view(p.path@))
}

/// The pairs are the union of the two listings: each path of either listing
/// once, in path order, with what each listing recorded for it.
pub open spec fn is_union(ps: Seq<PathPair>, left: Seq<ListingEntry>, right: Seq<ListingEntry>) -> bool {
    &&& strictly_sorted(pair_keys(ps))
    &&& forall|i: int| 0 <= i < ps.len() ==> (#[trigger] ps[i]).left == lookup(left, pair_keys(ps)[i])
        && ps[i].right == lookup(right, pair_keys(ps)[i])
    &&& forall|k: Seq<Seq<u8>>| (exists|i: int| 0 <= i < ps.len() && #[trigger] pair_keys(ps)[i] == k)
        <==> (lookup(left, k) is Some || lookup(right, k) is Some)
}

proof fn lemma_lookup_some_has_index(es: Seq<ListingEntry>, k: Seq<Seq<u8>>)
    requires
        lookup(es, k) is Some,
    ensures
        exists|i: int| 0 <= i < es.len() && #[trigger] entry_keys(es)[i] == k,
    decreases es.len(),
{
    if components_view(es.last().path@) == k {
        assert(entry_keys(es)[es.len() - 1] == k);
    } else {
        lemma_lookup_some_has_index(es.drop_last(), k);
        let i = choose|i: int| 0 <= i < es.drop_last().len() && #[trigger] entry_keys(es.drop_last())[i] == k;
        assert(entry_keys(es)[i] == entry_keys(es.drop_last())[i]);
    }
}

/// The invariant of the walk that merges sorted keys `lk` and `rk` into `pk`,
/// `i` and `j` keys taken from each.
#[verifier::opaque]
spec fn merge_inv(pk: Seq<Seq<Seq<u8>>>, lk: Seq<Seq<Seq<u8>>>, rk: Seq<Seq<Seq<u8>>>, i: int, j: int) -> bool {
    &&& 0 <= i <= lk.len()
    &&& 0 <= j <= rk.len()
    &&& strictly_sorted(lk)
    &&& strictly_sorted(rk)
    &&& strictly_sorted(pk)
    &&& forall|x: int, y: int| 0 <= x < pk.len() && i <= y < lk.len() ==> path_less(#[trigger] pk[x], #[trigger] lk[y])
    &&& forall|x: int, y: int| 0 <= x < pk.len() && j <= y < rk.len() ==> path_less(#[trigger] pk[x], #[trigger] rk[y])
    &&& forall|y: int| 0 <= y < i ==> exists|x: int| 0 <= x < pk.len() && #[trigger] pk[x] == #[trigger] lk[y]
    &&& forall|y: int| 0 <= y < j ==> exists|x: int| 0 <= x < pk.len() && #[trigger] pk[x] == #[trigger] rk[y]
    &&& forall|x: int| 0 <= x < pk.len() ==> (exists|y: int| 0 <= y < i && #[trigger] lk[y] == #[trigger] pk[x])
        || (exists|y: int| 0 <= y < j && #[trigger] rk[y] == pk[x])
}

proof fn lemma_merge_inv_start(lk: Seq<Seq<Seq<u8>>>, rk: Seq<Seq<Seq<u8>>>)
    requires
        strictly_sorted(lk),
        strictly_sorted(rk),
    ensures
        merge_inv(Seq::empty(), lk, rk, 0, 0),
{
    reveal(merge_inv);
}

/// Which key the merge walk takes next, given the keys it compares.
spec fn merge_pick(lk: Seq<Seq<Seq<u8>>>, rk: Seq<Seq<Seq<u8>>>, i: int, j: int, take_left: bool, take_right: bool) -> bool {
    &&& take_left || take_right
    &&& take_left ==> i < lk.len()
    &&& take_right ==> j < rk.len()
    &&& take_left && take_right ==> lk[i] == rk[j]
    &&& take_left && !take_right ==> j == rk.len() || path_less(lk[i], rk[j])
    &&& !take_left && take_right ==> i == lk.len() || path_less(rk[j], lk[i])
}

proof fn lemma_merge_inv_step(
    pk: Seq<Seq<Seq<u8>>>,
    lk: Seq<Seq<Seq<u8>>>,
    rk: Seq<Seq<Seq<u8>>>,
    i: int,
    j: int,
    take_left: bool,
    take_right: bool,
)
    requires
        merge_inv(pk, lk, rk, i, j),
        merge_pick(lk, rk, i, j, take_left, take_right),
    ensures
        ({
            let key = if take_left { lk[i] } else { rk[j] };
            let i2 = if take_left { i + 1 } else { i };
            let j2 = if take_right { j + 1 } else { j };
            &&& merge_inv(pk.push(key), lk, rk, i2, j2)
            &&& !take_left ==> forall|y: int| 0 <= y < lk.len() ==> #[trigger] lk[y] != key
            &&& !take_right ==> forall|y: int| 0 <= y < rk.len() ==> #[trigger] rk[y] != key
        }),
{
    reveal(merge_inv);
    let key = if take_left { lk[i] } else { rk[j] };
    let i2 = if take_left { i + 1 } else { i };
    let j2 = if take_right { j + 1 } else { j };
    let qk = pk.push(key);
    lemma_path_irreflexive(key);
    // the key comes after every key taken so far
    assert forall|x: int| 0 <= x < pk.len() implies path_less(#[trigger] pk[x], key) by {
        if take_left {
            assert(path_less(pk[x], lk[i]));
        } else {
            assert(path_less(pk[x], rk[j]));
        }
    }
    assert(strictly_sorted(qk)) by {
        assert forall|x: int, y: int| 0 <= x < y < qk.len() implies path_less(#[trigger] qk[x], #[trigger] qk[y]) by {
            if y == pk.len() {
                assert(path_less(pk[x], key));
            } else {
                assert(qk[x] == pk[x] && qk[y] == pk[y]);
            }
        }
    }
    // the key comes before every key still to take
    assert forall|y: int| i2 <= y < lk.len() implies path_less(key, #[trigger] lk[y]) by {
        if take_left {
            assert(path_less(lk[i], lk[y]));
        } else {
            lemma_path_total(lk[i], key);
            if y > i {
                lemma_path_transitive(key, lk[i], lk[y]);
            }
        }
    }
    assert forall|y: int| j2 <= y < rk.len() implies path_less(key, #[trigger] rk[y]) by {
        if take_right {
            assert(path_less(rk[j], rk[y]));
        } else {
            lemma_path_total(rk[j], key);
            if y > j {
                lemma_path_transitive(key, rk[j], rk[y]);
            }
        }
    }
    assert forall|x: int, y: int| 0 <= x < qk.len() && i2 <= y < lk.len() implies path_less(#[trigger] qk[x], #[trigger] lk[y]) by {
        if x == pk.len() {
            assert(path_less(key, lk[y]));
        } else {
            assert(qk[x] == pk[x]);
        }
    }
    assert forall|x: int, y: int| 0 <= x < qk.len() && j2 <= y < rk.len() implies path_less(#[trigger] qk[x], #[trigger] rk[y]) by {
        if x == pk.len() {
            assert(path_less(key, rk[y]));
        } else {
            assert(qk[x] == pk[x]);
        }
    }
    assert forall|y: int| 0 <= y < i2 implies exists|x: int| 0 <= x < qk.len() && #[trigger] qk[x] == #[trigger] lk[y] by {
        if take_left && y == i {
            assert(qk[pk.len() as int] == lk[y]);
        } else {
            let x = choose|x: int| 0 <= x < pk.len() && #[trigger] pk[x] == #[trigger] lk[y];
            assert(qk[x] == lk[y]);
        }
    }
    assert forall|y: int| 0 <= y < j2 implies exists|x: int| 0 <= x < qk.len() && #[trigger] qk[x] == #[trigger] rk[y] by {
        if take_right && y == j {
            assert(qk[pk.len() as int] == rk[y]);
        } else {
            let x = choose|x: int| 0 <= x < pk.len() && #[trigger] pk[x] == #[trigger] rk[y];
            assert(qk[x] == rk[y]);
        }
    }
    assert forall|x: int| 0 <= x < qk.len() implies (exists|y: int| 0 <= y < i2 && #[trigger] lk[y] == #[trigger] qk[x])
        || (exists|y: int| 0 <= y < j2 && #[trigger] rk[y] == qk[x]) by {
        if x == pk.len() {
            if take_left {
                assert(lk[i] == qk[x]);
            } else {
                assert(rk[j] == qk[x]);
            }
        } else {
            assert(qk[x] == pk[x]);
        }
    }
    // a side that is not taken does not hold the key
    if !take_left {
        assert forall|y: int| 0 <= y < lk.len() implies #[trigger] lk[y] != key by {
            if y >= i {
                assert(path_less(key, lk[y]));
            } else {
                let x = choose|x: int| 0 <= x < pk.len() && #[trigger] pk[x] == #[trigger] lk[y];
                assert(path_less(pk[x], key));
            }
        }
    }
    if !take_right {
        assert forall|y: int| 0 <= y < rk.len() implies #[trigger] rk[y] != key by {
            if y >= j {
                assert(path_less(key, rk[y]));
            } else {
                let x = choose|x: int| 0 <= x < pk.len() && #[trigger] pk[x] == #[trigger] rk[y];
                assert(path_less(pk[x], key));
            }
        }
    }
}

proof fn lemma_merge_inv_end(pk: Seq<Seq<Seq<u8>>>, le: Seq<ListingEntry>, re: Seq<ListingEntry>)
    requires
        merge_inv(pk, entry_keys(le), entry_keys(re), le.len() as int, re.len() as int),
    ensures
        strictly_sorted(pk),
        forall|k: Seq<Seq<u8>>| (exists|x: int| 0 <= x < pk.len() && #[trigger] pk[x] == k)
            <==> (lookup(le, k) is Some || lookup(re, k) is Some),
{
    reveal(merge_inv);
    let lk = entry_keys(le);
    let rk = entry_keys(re);
    assert forall|k: Seq<Seq<u8>>| (exists|x: int| 0 <= x < pk.len() && #[trigger] pk[x] == k)
        <==> (lookup(le, k) is Some || lookup(re, k) is Some) by {
        if exists|x: int| 0 <= x < pk.len() && #[trigger] pk[x] == k {
            let x = choose|x: int| 0 <= x < pk.len() && #[trigger] pk[x] == k;
            if exists|y: int| 0 <= y < le.len() && #[trigger] lk[y] == pk[x] {
                let y = choose|y: int| 0 <= y < le.len() && #[trigger] lk[y] == pk[x];
                lemma_lookup_at(le, y);
            } else {
                let y = choose|y: int| 0 <= y < re.len() && #[trigger] rk[y] == pk[x];
                lemma_lookup_at(re, y);
            }
        }
        if lookup(le, k) is Some {
            lemma_lookup_some_has_index(le, k);
            let y = choose|y: int| 0 <= y < le.len() && #[trigger] entry_keys(le)[y] == k;
            let x = choose|x: int| 0 <= x < pk.len() && #[trigger] pk[x] == #[trigger] lk[y];
        }
        if lookup(re, k) is Some {
            lemma_lookup_some_has_index(re, k);
            let y = choose|y: int| 0 <= y < re.len() && #[trigger] entry_keys(re)[y] == k;
            let x = choose|x: int| 0 <= x < pk.len() && #[trigger] pk[x] == #[trigger] rk[y];
        }
    }
}

/// The union of two listings.
pub fn pair_listings(left: &Listing, right: &Listing) -> (pairs: Vec<PathPair>)
    requires
        left.wf(),
        right.wf(),
    ensures
        is_union(pairs@, left.entries@, right.entries@),
{
    let ghost le = left.entries@;
    let ghost re = right.entries@;
    let ghost lk = entry_keys(le);
    let ghost rk = entry_keys(re);
    let mut pairs: Vec<PathPair> = Vec::new();
    let mut i: usize = 0;
    let mut j: usize = 0;
    proof {
        lemma_merge_inv_start(lk, rk);
        assert(pair_keys(pairs@) =~= Seq::<Seq<Seq<u8>>>::empty());
    }
    while i < left.entries.len() || j < right.entries.len()
        invariant
            le == left.entries@,
            re == right.entries@,
            lk == entry_keys(le),
            rk == entry_keys(re),
            strictly_sorted(lk),
            strictly_sorted(rk),
            i <= left.entries.len(),
            j <= right.entries.len(),
            merge_inv(pair_keys(pairs@), lk, rk, i as int, j as int),
            forall|x: int| 0 <= x < pairs@.len() ==> (#[trigger] pairs@[x]).left == lookup(le, pair_keys(pairs@)[x])
                && pairs@[x].right == lookup(re, pair_keys(pairs@)[x]),
        decreases (left.entries.len() - i) + (right.entries.len() - j),
    {
        let take_left: bool;
        let take_right: bool;
        if j == right.entries.len() {
            take_left = true;
            take_right = false;
        } else if i == left.entries.len() {
            take_left = false;
            take_right = true;
        } else {
            assert(lk[i as int] == components_view(le[i as int].path@));
            assert(rk[j as int] == components_view(re[j as int].path@));
            match order_paths(left.entries[i].path.as_slice(), right.entries[j].path.as_slice()) {
                Order::Less => {
                    take_left = true;
                    take_right = false;
                },
                Order::Greater => {
                    take_left = false;
                    take_right = true;
                },
                Order::Equal => {
                    take_left = true;
                    take_right = true;
                },
            }
        }
        let ghost key = if take_left { lk[i as int] } else { rk[j as int] };
        proof {
            lemma_merge_inv_step(pair_keys(pairs@), lk, rk, i as int, j as int, take_left, take_right);
            if take_left {
                assert(lk[i as int] == components_view(le[i as int].path@));
                lemma_lookup_at(le, i as int);
            } else {
                lemma_lookup_none(le, key);
            }
            if take_right {
                assert(rk[j as int] == components_view(re[j as int].path@));
                lemma_lookup_at(re, j as int);
            } else {
                lemma_lookup_none(re, key);
            }
        }
        let path = if take_left {
            copy_path(left.entries[i].path.as_slice())
        } else {
            copy_path(right.entries[j].path.as_slice())
        };
        let left_item = if take_left { Some(copy_item(&left.entries[i].item)) } else { None };
        let right_item = if take_right { Some(copy_item(&right.entries[j].item)) } else { None };
        let ghost old_pairs = pairs@;
        pairs.push(PathPair { path, left: left_item, right: right_item });
        assert(pair_keys(pairs@) =~= pair_keys(old_pairs).push(key));
        assert forall|x: int| 0 <= x < pairs@.len() implies (#[trigger] pairs@[x]).left == lookup(le, pair_keys(pairs@)[x])
            && pairs@[x].right == lookup(re, pair_keys(pairs@)[x]) by {
            if x < old_pairs.len() {
                assert(pairs@[x] == old_pairs[x]);
                assert(pair_keys(pairs@)[x] == pair_keys(old_pairs)[x]);
            }
        }
        if take_left {
            i = i + 1;
        }
        if take_right {
            j = j + 1;
        }
    }
    proof {
        lemma_merge_inv_end(pair_keys(pairs@), le, re);
    }
    pairs
}

/// What deciding a relative path's state needs.
#[derive(Debug)]
pub enum EntryPlan {
    /// The kind and the state are known.
    Decided(DirectoryEntryKind, DirectoryEntryState),
    /// Both sides hold a file: its contents decide.
    CompareFiles,
    /// Both sides hold a symbolic link: its target decides.
    CompareLinks,
}

/// The plan for a relative path from what each side recorded: an error on
/// either side (the left one first) is reported as such; a path on one side
/// only is left-only or right-only; different kinds mismatch, with the left
/// kind; two files or two links are compared; two entries of another kind
/// are the same.
pub open spec fn plan_of(left: Option<Item>, right: Option<Item>) -> EntryPlan {
    match (left, right) {
        (Some(Err(e)), _) => EntryPlan::Decided(DirectoryEntryKind::Other, DirectoryEntryState::Error(e)),
        (_, Some(Err(e))) => EntryPlan::Decided(DirectoryEntryKind::Other, DirectoryEntryState::Error(e)),
        (Some(Ok(k)), None) => EntryPlan::Decided(k, DirectoryEntryState::LeftOnly),
        (None, Some(Ok(k))) => EntryPlan::Decided(k, DirectoryEntryState::RightOnly),
        (Some(Ok(a)), Some(Ok(b))) => if a != b {
            EntryPlan::Decided(a, DirectoryEntryState::TypeMismatch)
        } else if a == DirectoryEntryKind::File {
            EntryPlan::CompareFiles
        } else if a == DirectoryEntryKind::Symlink {
            EntryPlan::CompareLinks
        } else {
            EntryPlan::Decided(a, DirectoryEntryState::Same)
        },
        (None, None) => EntryPlan::Decided(DirectoryEntryKind::Other, DirectoryEntryState::Same),
    }
}

/// The plan for a relative path that at least one side holds.
pub fn plan_entry(left: Option<Item>, right: Option<Item>) -> (plan: EntryPlan)
    requires
        left is Some || right is Some,
    ensures
        plan == plan_of(left, right),
{
    match (left, right) {
        (Some(Err(e)), _) => EntryPlan::Decided(DirectoryEntryKind::Other, DirectoryEntryState::Error(e)),
        (_, Some(Err(e))) => EntryPlan::Decided(DirectoryEntryKind::Other, DirectoryEntryState::Error(e)),
        (Some(Ok(k)), None) => EntryPlan::Decided(k, DirectoryEntryState::LeftOnly),
        (None, Some(Ok(k))) => EntryPlan::Decided(k, DirectoryEntryState::RightOnly),
        (Some(Ok(a)), Some(Ok(b))) => {
            if a != b {
                EntryPlan::Decided(a, DirectoryEntryState::TypeMismatch)
            } else if a == DirectoryEntryKind::File {
                EntryPlan::CompareFiles
            } else if a == DirectoryEntryKind::Symlink {
                EntryPlan::CompareLinks
            } else {
                EntryPlan::Decided(a, DirectoryEntryState::Same)
            }
        },
        (None, None) => EntryPlan::Decided(DirectoryEntryKind::Other, DirectoryEntryState::Same),
    }
}

/// The state of two files from the outcome of comparing their bytes:
/// `None` where the comparison was cancelled.
pub fn file_state(outcome: Result<Option<bool>, CompareError>) -> (state: Option<DirectoryEntryState>)
    ensures
        state == match outcome {
            Ok(Some(true)) => Some(DirectoryEntryState::Same),
            Ok(Some(false)) => Some(DirectoryEntryState::Different),
            Ok(None) => None,
            Err(e) => Some(DirectoryEntryState::Error(e)),
        },
{
    match outcome {
        Ok(Some(true)) => Some(DirectoryEntryState::Same),
        Ok(Some(false)) => Some(DirectoryEntryState::Different),
        Ok(None) => None,
        Err(e) => Some(DirectoryEntryState::Error(e)),
    }
}

/// The state of two symbolic links from their targets, each given by its
/// components: the same target is the same; an error reading either target
/// (the left one first) is reported.
pub fn link_state(left: Result<Vec<Vec<u8>>, CompareError>, right: Result<Vec<Vec<u8>>, CompareError>) -> (state: DirectoryEntryState)
    ensures
        state == match (left, right) {
            (Ok(a), Ok(b)) => if components_view(a@) == components_view(b@) {
                DirectoryEntryState::Same
            } else {
                DirectoryEntryState::Different
            },
            (Err(e), _) => DirectoryEntryState::Error(e),
            (_, Err(e)) => DirectoryEntryState::Error(e),
        },
{
    match (left, right) {
        (Ok(a), Ok(b)) => match order_paths(a.as_slice(), b.as_slice()) {
            Order::Equal => DirectoryEntryState::Same,
            _ => DirectoryEntryState::Different,
        },
        (Err(e), _) => DirectoryEntryState::Error(e),
        (_, Err(e)) => DirectoryEntryState::Error(e),
    }
}

/// The entry stands for the pair as its plan says: the pair's path, the
/// decided kind and state, or for compared files and links their kind and
/// one of the states that a comparison gives.
pub open spec fn entry_for(e: DirectoryEntry, p: PathPair) -> bool {
    &&& components_view(e.relative_path@) == components_view(p.path@)
    &&& match plan_of(p.left, p.right) {
        EntryPlan::Decided(k, st) => e.kind == k && e.state == st,
        EntryPlan::CompareFiles => e.kind == DirectoryEntryKind::File && (e.state
            is Same || e.state is Different || e.state is Error),
        EntryPlan::CompareLinks => e.kind == DirectoryEntryKind::Symlink && (e.state
            is Same || e.state is Different || e.state is Error),
    }
}

/// What an entry says of the kinds on the two sides: it is a type mismatch
/// exactly when both sides hold the path, without error, as different kinds;
/// where both hold it as the same kind the entry has that kind, and two
/// directories (or two entries that are neither files nor links) are the
/// same.
pub proof fn lemma_entry_kinds(e: DirectoryEntry, p: PathPair)
    requires
        entry_for(e, p),
    ensures
        (e.state is TypeMismatch) <==> (p.left matches Some(Ok(a)) && p.right matches Some(Ok(b)) && a != b),
        forall|a: DirectoryEntryKind|
            p.left == Some(Ok::<DirectoryEntryKind, CompareError>(a)) && p.right == p.left ==> e.kind == a
                && !(e.state is TypeMismatch),
        forall|a: DirectoryEntryKind|
            p.left == Some(Ok::<DirectoryEntryKind, CompareError>(a)) && p.right == p.left && a
                != DirectoryEntryKind::File && a != DirectoryEntryKind::Symlink ==> e.state is Same,
        (p.left == Some(Ok::<DirectoryEntryKind, CompareError>(DirectoryEntryKind::Directory)) && p.right == p.left)
            ==> e.kind == DirectoryEntryKind::Directory && e.state is Same,
{
}

/// A directory comparison under way: the union of the two listings, the
/// next pair to decide, and the entries decided so far.
pub struct DirectoryComparison {
    pub pairs: Vec<PathPair>,
    pub next: usize,
    pub entries: Vec<DirectoryEntry>,
}

/// What the comparison needs next.
pub enum ComparisonStep {
    /// The comparison is over, or was cancelled; these are its entries.
    Finished(DirectoryDiff),
    /// The two files at this relative path must be compared byte by byte.
    CompareFiles(Vec<Vec<u8>>),
    /// The targets of the two links at this relative path must be read.
    CompareLinks(Vec<Vec<u8>>),
}

impl DirectoryComparison {
    /// Every decided entry stands for its pair.
    pub open spec fn wf(self) -> bool {
        &&& forall|i: int| 0 <= i < self.pairs.len() ==> (#[trigger] self.pairs@[i]).left is Some || self.pairs@[i].right is Some
        &&& self.next <= self.pairs.len()
        &&& self.entries.len() == self.next
        &&& forall|i: int| 0 <= i < self.next ==> entry_for(#[trigger] self.entries@[i], self.pairs@[i])
    }

    /// The pair to decide next needs the given comparison.
    pub open spec fn pending(self, plan: EntryPlan) -> bool {
        &&& self.next < self.pairs.len()
        &&& plan_of(self.pairs@[self.next as int].left, self.pairs@[self.next as int].right) == plan
    }

    /// Starts comparing the union of two listings.
    pub fn new(left: &Listing, right: &Listing) -> (c: DirectoryComparison)
        requires
            left.wf(),
            right.wf(),
        ensures
            c.wf(),
            c.next == 0,
            is_union(c.pairs@, left.entries@, right.entries@),
    {
        let pairs = pair_listings(left, right);
        assert forall|i: int| 0 <= i < pairs@.len() implies (#[trigger] pairs@[i]).left is Some || pairs@[i].right is Some by {
            let k = pair_keys(pairs@)[i];
            assert(exists|x: int| 0 <= x < pairs@.len() && #[trigger] pair_keys(pairs@)[x] == k);
        }
        DirectoryComparison { pairs, next: 0, entries: Vec::new() }
    }

    fn take_entries(&mut self) -> (entries: Vec<DirectoryEntry>)
        ensures
            entries@ == old(self).entries@,
            final(self).entries@.len() == 0,
            final(self).pairs == old(self).pairs,
            final(self).next == old(self).next,
    {
        let mut entries: Vec<DirectoryEntry> = Vec::new();
        core::mem::swap(&mut entries, &mut self.entries);
        entries
    }

    /// Decides the next pair, unless `stop` asks to stop first: with no pair
    /// left the comparison is over; with `stop` it ends cancelled with the
    /// entries so far; otherwise a pair whose plan is decided gets its entry
    /// (`None` is returned), and a pair of files or links is handed out for
    /// comparison.
    pub fn decide_next(&mut self, stop: bool) -> (step: Option<ComparisonStep>)
        requires
            old(self).wf(),
        ensures
            final(self).pairs == old(self).pairs,
            step is Some ==> final(self).next == old(self).next,
            old(self).next == old(self).pairs.len() ==> (step matches Some(ComparisonStep::Finished(d)) && !d.cancelled
                && d.entries@ == old(self).entries@),
            old(self).next < old(self).pairs.len() && stop ==> (step matches Some(ComparisonStep::Finished(d))
                && d.cancelled && d.entries@ == old(self).entries@),
            old(self).next < old(self).pairs.len() && !stop ==> {
                let pair = old(self).pairs@[old(self).next as int];
                match plan_of(pair.left, pair.right) {
                    EntryPlan::Decided(_, _) => {
                        &&& step is None
                        &&& final(self).wf()
                        &&& final(self).next == old(self).next + 1
                        &&& final(self).entries@.drop_last() == old(self).entries@
                        &&& entry_for(final(self).entries@.last(), pair)
                    },
                    EntryPlan::CompareFiles => {
                        &&& step matches Some(ComparisonStep::CompareFiles(path))
                            && components_view(path@) == components_view(pair.path@)
                        &&& *final(self) == *old(self)
                    },
                    EntryPlan::CompareLinks => {
                        &&& step matches Some(ComparisonStep::CompareLinks(path))
                            && components_view(path@) == components_view(pair.path@)
                        &&& *final(self) == *old(self)
                    },
                }
            },
    {
        if self.next >= self.pairs.len() {
            let entries = self.take_entries();
            return Some(ComparisonStep::Finished(DirectoryDiff { entries, cancelled: false }));
        }
        if stop {
            let entries = self.take_entries();
            return Some(ComparisonStep::Finished(DirectoryDiff { entries, cancelled: true }));
        }
        let pair = &self.pairs[self.next];
        let left = match &pair.left {
            Some(item) => Some(copy_item(item)),
            None => None,
        };
        let right = match &pair.right {
            Some(item) => Some(copy_item(item)),
            None => None,
        };
        assert(self.pairs@[self.next as int].left is Some || self.pairs@[self.next as int].right is Some);
        let plan = plan_entry(left, right);
        match plan {
            EntryPlan::Decided(kind, state) => {
                let path = copy_path(pair.path.as_slice());
                let ghost before = self.entries@;
                self.entries.push(DirectoryEntry { relative_path: path, kind, state });
                assert(self.entries@[self.next as int] == self.entries@.last());
                assert(self.entries@.drop_last() =~= before);
                assert forall|i: int| 0 <= i < self.next + 1 implies entry_for(#[trigger] self.entries@[i], self.pairs@[i]) by {
                    if i < self.next {
                        assert(self.entries@[i] == before[i]);
                    }
                }
                self.next = self.next + 1;
                None
            },
            EntryPlan::CompareFiles => {
                let path = copy_path(pair.path.as_slice());
                Some(ComparisonStep::CompareFiles(path))
            },
            EntryPlan::CompareLinks => {
                let path = copy_path(pair.path.as_slice());
                Some(ComparisonStep::CompareLinks(path))
            },
        }
    }

    /// Decides pairs until one needs a comparison, the pairs run out, or
    /// cancellation is requested (checked before each pair).
    pub fn advance(&mut self, options: &DirectoryCompareOptions) -> (step: ComparisonStep)
        requires
            old(self).wf(),
        ensures
            final(self).pairs == old(self).pairs,
            final(self).next >= old(self).next,
            match step {
                ComparisonStep::Finished(d) => {
                    &&& d.entries.len() <= final(self).pairs.len()
                    &&& forall|i: int| 0 <= i < d.entries.len() ==> entry_for(#[trigger] d.entries@[i], final(self).pairs@[i])
                    &&& !d.cancelled ==> d.entries.len() == final(self).pairs.len()
                    &&& options.cancellation is None ==> !d.cancelled
                },
                ComparisonStep::CompareFiles(path) => {
                    &&& final(self).wf()
                    &&& final(self).pending(EntryPlan::CompareFiles)
                    &&& components_view(path@) == components_view(final(self).pairs@[final(self).next as int].path@)
                },
                ComparisonStep::CompareLinks(path) => {
                    &&& final(self).wf()
                    &&& final(self).pending(EntryPlan::CompareLinks)
                    &&& components_view(path@) == components_view(final(self).pairs@[final(self).next as int].path@)
                },
            },
    {
        loop
            invariant
                self.wf(),
                self.pairs == old(self).pairs,
                self.next >= old(self).next,
            decreases self.pairs.len() - self.next,
        {
            let stop = cancelled(options);
            match self.decide_next(stop) {
                Some(step) => {
                    return step;
                },
                None => {},
            }
        }
    }

    /// Records the outcome of comparing the pending files: `Some` with the
    /// entries so far where the comparison was cancelled.
    pub fn files_compared(&mut self, outcome: Result<Option<bool>, CompareError>) -> (finished: Option<DirectoryDiff>)
        requires
            old(self).wf(),
            old(self).pending(EntryPlan::CompareFiles),
        ensures
            final(self).pairs == old(self).pairs,
            outcome == Ok::<Option<bool>, CompareError>(None) <==> finished is Some,
            finished matches Some(d) ==> d.cancelled && d.entries@ == old(self).entries@,
            finished is None ==> {
                &&& final(self).wf()
                &&& final(self).next == old(self).next + 1
                &&& final(self).entries@.last().state == match outcome {
                    Ok(Some(true)) => DirectoryEntryState::Same,
                    Ok(Some(false)) => DirectoryEntryState::Different,
                    Ok(None) => DirectoryEntryState::Same,
                    Err(e) => DirectoryEntryState::Error(e),
                }
            },
    {
        match file_state(outcome) {
            None => {
                let entries = self.take_entries();
                Some(DirectoryDiff { entries, cancelled: true })
            },
            Some(state) => {
                let path = copy_path(self.pairs[self.next].path.as_slice());
                let ghost before = self.entries@;
                self.entries.push(DirectoryEntry { relative_path: path, kind: DirectoryEntryKind::File, state });
                assert forall|i: int| 0 <= i < self.next + 1 implies entry_for(#[trigger] self.entries@[i], self.pairs@[i]) by {
                    if i < self.next {
                        assert(self.entries@[i] == before[i]);
                    }
                }
                self.next = self.next + 1;
                None
            },
        }
    }

    /// Records the targets of the pending links, each given by its
    /// components or by the error that reading it gave.
    pub fn links_read(&mut self, left: Result<Vec<Vec<u8>>, CompareError>, right: Result<Vec<Vec<u8>>, CompareError>)
        requires
            old(self).wf(),
            old(self).pending(EntryPlan::CompareLinks),
        ensures
            final(self).pairs == old(self).pairs,
            final(self).wf(),
            final(self).next == old(self).next + 1,
            final(self).entries@.last().state == match (left, right) {
                (Ok(a), Ok(b)) => if components_view(a@) == components_view(b@) {
                    DirectoryEntryState::Same
                } else {
                    DirectoryEntryState::Different
                },
                (Err(e), _) => DirectoryEntryState::Error(e),
                (_, Err(e)) => DirectoryEntryState::Error(e),
            },
    {
        let state = link_state(left, right);
        let path = copy_path(self.pairs[self.next].path.as_slice());
        let ghost before = self.entries@;
        self.entries.push(DirectoryEntry { relative_path: path, kind: DirectoryEntryKind::Symlink, state });
        assert forall|i: int| 0 <= i < self.next + 1 implies entry_for(#[trigger] self.entries@[i], self.pairs@[i]) by {
            if i < self.next {
                assert(self.entries@[i] == before[i]);
            }
        }
        self.next = self.next + 1;
    }
}

/// A walk over one directory tree that records each entry by its relative
/// path and never enters a symbolic link: the directories still to read and
/// the listing so far.
pub struct DirectoryWalk {
    pub todo: Vec<Vec<Vec<u8>>>,
    pub listing: Listing,
}

impl DirectoryWalk {
    /// The walk is well formed: its listing holds each path once, in order.
    pub open spec fn wf(self) -> bool {
        self.listing.wf()
    }

    /// A walk that starts at the root, the empty relative path.
    pub fn new() -> (w: DirectoryWalk)
        ensures
            w.wf(),
            w.todo@.len() == 1,
            w.todo@[0]@.len() == 0,
            forall|k: Seq<Seq<u8>>| w.listing.get_spec(k) is None,
    {
        let mut todo: Vec<Vec<Vec<u8>>> = Vec::new();
        todo.push(Vec::new());
        DirectoryWalk { todo, listing: Listing::new() }
    }

    /// Takes the next directory to read, the one found last first; `None`
    /// when none is left, or when `stop` asks to stop (the directory is taken
    /// all the same).
    pub fn take_directory(&mut self, stop: bool) -> (next: Option<Vec<Vec<u8>>>)
        requires
            old(self).wf(),
        ensures
            final(self).wf(),
            final(self).listing == old(self).listing,
            old(self).todo@.len() == 0 ==> next is None && final(self).todo@ == old(self).todo@,
            old(self).todo@.len() > 0 ==> final(self).todo@ == old(self).todo@.drop_last() && next == (if stop {
                None
            } else {
                Some(old(self).todo@.last())
            }),
    {
        match self.todo.pop() {
            None => None,
            Some(relative) => {
                if stop {
                    None
                } else {
                    Some(relative)
                }
            },
        }
    }

    /// The next directory to read, the one found last first; `None` when
    /// none is left or cancellation was requested.
    pub fn next_directory(&mut self, options: &DirectoryCompareOptions) -> (next: Option<Vec<Vec<u8>>>)
        requires
            old(self).wf(),
        ensures
            final(self).wf(),
            final(self).listing == old(self).listing,
            old(self).todo@.len() == 0 ==> next is None,
            old(self).todo@.len() > 0 ==> final(self).todo@ == old(self).todo@.drop_last(),
            next matches Some(d) ==> d == old(self).todo@.last(),
            old(self).todo@.len() > 0 && options.cancellation is None ==> next is Some,
    {
        let stop = cancelled(options);
        self.take_directory(stop)
    }

    /// Records that directory `relative` could not be read: an error for the
    /// whole walk where it is the root, an error entry for it otherwise.
    pub fn unreadable(&mut self, relative: Vec<Vec<u8>>, error: CompareError) -> (r: Result<(), CompareError>)
        requires
            old(self).wf(),
        ensures
            final(self).wf(),
            final(self).todo == old(self).todo,
            relative@.len() == 0 <==> r is Err,
            r matches Err(e) ==> e == error,
            relative@.len() == 0 ==> final(self).listing == old(self).listing,
            relative@.len() > 0 ==> forall|k: Seq<Seq<u8>>| #[trigger] final(self).listing.get_spec(k) == (if k == components_view(relative@) {
                Some(Err::<DirectoryEntryKind, CompareError>(error))
            } else {
                old(self).listing.get_spec(k)
            }),
    {
        if relative.len() == 0 {
            Err(error)
        } else {
            self.listing.insert(relative, Err(error));
            Ok(())
        }
    }

    /// Records that listing directory `relative` failed part way: an error
    /// entry for that directory.
    pub fn listing_failed(&mut self, relative: Vec<Vec<u8>>, error: CompareError)
        requires
            old(self).wf(),
        ensures
            final(self).wf(),
            final(self).todo == old(self).todo,
            forall|k: Seq<Seq<u8>>| #[trigger] final(self).listing.get_spec(k) == (if k == components_view(relative@) {
                Some(Err::<DirectoryEntryKind, CompareError>(error))
            } else {
                old(self).listing.get_spec(k)
            }),
    {
        self.listing.insert(relative, Err(error));
    }

    /// Records child `name` of directory `relative` with its kind, or the
    /// error that reading its metadata gave; a child directory is read later.
    pub fn child(&mut self, relative: &[Vec<u8>], name: Vec<u8>, item: Item)
        requires
            old(self).wf(),
        ensures
            final(self).wf(),
            final(self).todo@.len() == old(self).todo@.len() + (if item == Ok::<DirectoryEntryKind, CompareError>(DirectoryEntryKind::Directory) { 1int } else { 0int }),
            forall|i: int| 0 <= i < old(self).todo@.len() ==> final(self).todo@[i] == old(self).todo@[i],
            item == Ok::<DirectoryEntryKind, CompareError>(DirectoryEntryKind::Directory) ==> components_view(final(self).todo@.last()@)
                == components_view(relative@).push(name@),
            forall|k: Seq<Seq<u8>>| #[trigger] final(self).listing.get_spec(k) == (if k == components_view(relative@).push(name@) {
                Some(item)
            } else {
                old(self).listing.get_spec(k)
            }),
    {
        let mut path = copy_path(relative);
        path.push(name);
        assert(components_view(path@) =~= components_view(relative@).push(name@));
        let is_dir = match &item {
            Ok(DirectoryEntryKind::Directory) => true,
            _ => false,
        };
        if is_dir {
            let again = copy_path(path.as_slice());
            self.todo.push(again);
        }
        self.listing.insert(path, item);
    }

    /// The listing of the tree.
    pub fn finish(self) -> (l: Listing)
        requires
            self.wf(),
        ensures
            l.wf(),
            l == self.listing,
    {
        self.listing
    }
}

} // verus!
