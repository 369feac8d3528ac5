use vstd::prelude::*;

use crate::data::SpecValue;
use crate::data::Value;
use crate::file::FileInfo;
use crate::file::FileKind;
use crate::file::FileFormat;
use crate::file::FileInfoError;
use crate::file::classify_path;
use crate::meta::File;
use crate::meta::MetaError;
use crate::path::PathComponent;
use crate::path::PathIter;
use crate::path::SpecComponent;
use crate::path::cmodel;

verus! {

/// One node of a workspace file tree: a directory of named entries, or a
/// file.  Entry names are stored lower-cased; lookups lower-case the
/// queried name.
pub enum FileEntry {
    File(File),
    Dir(Vec<(String, FileEntry)>),
}

/// The model of one classified file: the plain parts a query can read.
pub struct SpecInfo {
    pub kind: FileKind,
    pub path: Seq<char>,
    pub name: Seq<char>,
    pub format: FileFormat,
}

/// The model of a tree node.  A file carries its classification model
/// and its metadata state: not yet loaded, loaded without metadata, or
/// loaded with a metadata tree.
pub enum SpecEntry {
    File(SpecInfo, Option<Option<SpecValue>>),
    Dir(Seq<(Seq<char>, SpecEntry)>),
}

/// The model of a classification.
pub open spec fn finfo_model(info: FileInfo) -> SpecInfo {
    SpecInfo {
        kind: info.spec_kind(),
        path: info.spec_path(),
        name: info.spec_name(),
        format: info.spec_format(),
    }
}

/// The metadata state of a file, as a model.
pub open spec fn file_meta_model(f: File) -> Option<Option<SpecValue>> {
    if !f.spec_loaded() {
        None
    } else {
        match f.spec_data()->0.spec_meta() {
            None => Some(None),
            Some(m) => Some(Some(m.model())),
        }
    }
}

/// How many entries a directory node has.
pub open spec fn entry_count(e: FileEntry) -> nat {
    match e {
        FileEntry::Dir(entries) => entries@.len(),
        _ => 0,
    }
}

/// The model of a tree node.
pub open spec fn te(e: FileEntry) -> SpecEntry
    decreases e, 1int, 0int,
{
    match e {
        FileEntry::File(f) => SpecEntry::File(finfo_model(f.spec_info()), file_meta_model(f)),
        FileEntry::Dir(_) => SpecEntry::Dir(te_entries(e, 0)),
    }
}

/// Models of a directory's entries, from index `i` on.
pub open spec fn te_entries(e: FileEntry, i: int) -> Seq<(Seq<char>, SpecEntry)>
    decreases e, 0int, entry_count(e) - i,
{
    if e is Dir && 0 <= i < entry_count(e) {
        seq![(e->Dir_0@[i].0@, te(e->Dir_0@[i].1))] + te_entries(e, i + 1)
    } else {
        Seq::empty()
    }
}

impl View for FileEntry {
    type V = SpecEntry;

    open spec fn view(&self) -> SpecEntry {
        te(*self)
    }
}

/// Pointwise characterization of `te_entries`.
pub proof fn lemma_te_entries_index(e: FileEntry, i: int)
    requires
        e is Dir,
        0 <= i <= entry_count(e),
    ensures
        te_entries(e, i).len() == entry_count(e) - i,
        forall|j: int|
            0 <= j < entry_count(e) - i ==> #[trigger] te_entries(e, i)[j] == (
                e->Dir_0@[i + j].0@,
                te(e->Dir_0@[i + j].1),
            ),
    decreases entry_count(e) - i,
{
    if i < entry_count(e) {
        lemma_te_entries_index(e, i + 1);
    }
}

/// One result of a cross-tree query: a file itself, or a value inside a
/// file's metadata.
pub enum SpecFound {
    FoundFile(SpecInfo),
    FoundValue(SpecValue),
}

/// How many entries a directory model has.
pub open spec fn skid_count(m: SpecEntry) -> nat {
    match m {
        SpecEntry::Dir(entries) => entries.len(),
        _ => 0,
    }
}

/// The i-th child of a directory model.
pub open spec fn skid_at(m: SpecEntry, i: int) -> SpecEntry {
    match m {
        SpecEntry::Dir(entries) => entries[i].1,
        _ => arbitrary(),
    }
}

/// Index of the first entry of a directory model whose name equals
/// `key`, from `i` on; the entry count if there is none.
pub open spec fn find_ekey(entries: Seq<(Seq<char>, SpecEntry)>, key: Seq<char>, i: int) -> int
    decreases entries.len() - i,
{
    if 0 <= i < entries.len() {
        if entries[i].0 == key {
            i
        } else {
            find_ekey(entries, key, i + 1)
        }
    } else {
        entries.len() as int
    }
}

/// `find_ekey` stays within bounds and finds the first real match.
pub proof fn lemma_find_ekey(entries: Seq<(Seq<char>, SpecEntry)>, key: Seq<char>, i: int)
    requires
        0 <= i <= entries.len(),
    ensures
        i <= find_ekey(entries, key, i) <= entries.len(),
        find_ekey(entries, key, i) < entries.len() ==> entries[find_ekey(entries, key, i)].0
            == key,
    decreases entries.len() - i,
{
    if i < entries.len() && entries[i].0 != key {
        lemma_find_ekey(entries, key, i + 1);
    }
}

/// Everything a path reaches in a file tree.  Directory components follow
/// the same rules as mapping components in a value query.  A file whose
/// path is spent matches as the file itself; a file reached with
/// components still left hands them — recursive-wildcard prefix included —
/// to its metadata, and a file without metadata yields nothing.
pub open spec fn tquery(m: SpecEntry, path: Seq<SpecComponent>) -> Seq<SpecFound>
    decreases m, path.len(), 1int, 0int,
    via tquery_decreases
{
    match m {
        SpecEntry::File(info, meta) => {
            if path.len() == 0 {
                seq![SpecFound::FoundFile(info)]
            } else {
                match meta {
                    Some(Some(mv)) => crate::query::svquery(mv, path).map_values(
                        |v: SpecValue| SpecFound::FoundValue(v),
                    ),
                    _ => Seq::empty(),
                }
            }
        },
        SpecEntry::Dir(entries) => {
            if path.len() == 0 {
                Seq::empty()
            } else {
                match path[0] {
                    SpecComponent::Name(nm) => {
                        let k = find_ekey(entries, crate::text::spec_lower(nm), 0);
                        if k < entries.len() {
                            tquery(entries[k].1, path.drop_first())
                        } else {
                            Seq::empty()
                        }
                    },
                    SpecComponent::Any => tquery_kids(m, 0, path.drop_first()),
                    SpecComponent::AnyRecursive => tquery(m, path.drop_first()) + tquery_kids(
                        m,
                        0,
                        path,
                    ),
                }
            }
        },
    }
}

#[via_fn]
proof fn tquery_decreases(m: SpecEntry, path: Seq<SpecComponent>) {
    if m is Dir && path.len() > 0 {
        match path[0] {
            SpecComponent::Name(nm) => {
                lemma_find_ekey(m->Dir_0, crate::text::spec_lower(nm), 0);
                let k = find_ekey(m->Dir_0, crate::text::spec_lower(nm), 0);
                if k < m->Dir_0.len() {
                    assert(decreases_to!(m => m->Dir_0[k].1));
                }
            },
            _ => {},
        }
    }
}

/// The concatenated results of matching `sub` against a directory's
/// children from index `i` on, in entry order.
pub open spec fn tquery_kids(m: SpecEntry, i: int, sub: Seq<SpecComponent>) -> Seq<SpecFound>
    decreases m, sub.len(), 0int, skid_count(m) - i,
    via tquery_kids_decreases
{
    if m is Dir && 0 <= i < skid_count(m) {
        tquery(skid_at(m, i), sub) + tquery_kids(m, i + 1, sub)
    } else {
        Seq::empty()
    }
}

#[via_fn]
proof fn tquery_kids_decreases(m: SpecEntry, i: int, sub: Seq<SpecComponent>) {
    if m is Dir && 0 <= i < skid_count(m) {
        assert(skid_at(m, i) == m->Dir_0[i].1);
        assert(decreases_to!(m => m->Dir_0[i].1));
    }
}

/// Whether every file in the tree has been loaded.
pub open spec fn fully_loaded(m: SpecEntry) -> bool
    decreases m, 1int, 0int,
{
    match m {
        SpecEntry::File(_, meta) => meta is Some,
        SpecEntry::Dir(_) => fully_loaded_kids(m, 0),
    }
}

/// Whether every file under children `i..` has been loaded.
pub open spec fn fully_loaded_kids(m: SpecEntry, i: int) -> bool
    decreases m, 0int, skid_count(m) - i,
    via fully_loaded_kids_decreases
{
    if m is Dir && 0 <= i < skid_count(m) {
        fully_loaded(skid_at(m, i)) && fully_loaded_kids(m, i + 1)
    } else {
        true
    }
}

#[via_fn]
proof fn fully_loaded_kids_decreases(m: SpecEntry, i: int) {
    if m is Dir && 0 <= i < skid_count(m) {
        assert(skid_at(m, i) == m->Dir_0[i].1);
        assert(decreases_to!(m => m->Dir_0[i].1));
    }
}

/// The node a tree address leads to, if the address is valid.
pub open spec fn entry_at(m: SpecEntry, addr: Seq<usize>) -> Option<SpecEntry>
    decreases addr.len(),
{
    if addr.len() == 0 {
        Some(m)
    } else if m is Dir && 0 <= addr[0] < skid_count(m) {
        entry_at(skid_at(m, addr[0] as int), addr.drop_first())
    } else {
        None
    }
}

/// Termination fuel for one tree frame, mirroring the fuel of the value
/// engine: a directory spawns its children and its own re-visit; a file
/// spawns at most its metadata query.
pub open spec fn tw(m: SpecEntry, r: nat) -> nat
    decreases m, r, 1int, 0int,
{
    match m {
        SpecEntry::File(_, meta) => 1 + (match meta {
            Some(Some(mv)) => crate::query::fweight(mv, r),
            _ => 0,
        }),
        SpecEntry::Dir(_) => {
            if r == 0 {
                1
            } else {
                1 + tw(m, (r - 1) as nat) + tw_kids(m, 0, r)
            }
        },
    }
}

/// The summed fuel of a directory's children from index `i` on.
pub open spec fn tw_kids(m: SpecEntry, i: int, r: nat) -> nat
    decreases m, r, 0int, skid_count(m) - i,
    via tw_kids_decreases
{
    if m is Dir && 0 <= i < skid_count(m) {
        tw(skid_at(m, i), r) + tw_kids(m, i + 1, r)
    } else {
        0
    }
}

#[via_fn]
proof fn tw_kids_decreases(m: SpecEntry, i: int, r: nat) {
    if m is Dir && 0 <= i < skid_count(m) {
        assert(skid_at(m, i) == m->Dir_0[i].1);
        assert(decreases_to!(m => m->Dir_0[i].1));
    }
}

/// Tree fuel never runs out entirely.
pub proof fn lemma_tw_pos(m: SpecEntry, r: nat)
    ensures
        tw(m, r) >= 1,
{
    if m is Dir && r > 0 {
    }
}

/// Tree fuel grows with the number of components left.
pub proof fn lemma_tw_mono(m: SpecEntry, r1: nat, r2: nat)
    requires
        r1 <= r2,
    ensures
        tw(m, r1) <= tw(m, r2),
    decreases r2, m, 0int,
{
    if m is File {
        if r1 < r2 {
            match m->File_1 {
                Some(opt) => match opt {
                    Some(mv) => {
                        crate::query::lemma_fweight_mono(mv, r1, r2);
                    },
                    None => {},
                },
                None => {},
            }
        }
    } else if r1 < r2 {
        lemma_tw_mono(m, r1, (r2 - 1) as nat);
    }
}

/// Children's summed tree fuel grows with the number of components left.
pub proof fn lemma_tw_kids_le(m: SpecEntry, i: int, r1: nat, r2: nat)
    requires
        r1 <= r2,
        0 <= i <= skid_count(m),
    ensures
        tw_kids(m, i, r1) <= tw_kids(m, i, r2),
    decreases r2, m, skid_count(m) - i,
{
    if m is Dir && i < skid_count(m) {
        assert(skid_at(m, i) == m->Dir_0[i].1);
        assert(decreases_to!(m => m->Dir_0[i].1));
        lemma_tw_mono(skid_at(m, i), r1, r2);
        lemma_tw_kids_le(m, i + 1, r1, r2);
    }
}

/// One child's tree fuel is at most the summed fuel from an earlier index.
pub proof fn lemma_tw_kids_bound(m: SpecEntry, i: int, j: int, r: nat)
    requires
        0 <= i <= j < skid_count(m),
    ensures
        tw(skid_at(m, j), r) <= tw_kids(m, i, r),
    decreases j - i,
{
    if i < j {
        lemma_tw_kids_bound(m, i + 1, j, r);
    }
}


/// One result handed out by a cross-tree query: a file itself, or a value
/// from inside a file's metadata.
pub enum FileOrValue {
    File(FileInfo),
    Value(Value),
}

/// The model of one handed-out result.
pub open spec fn fv_model(x: FileOrValue) -> SpecFound {
    match x {
        FileOrValue::File(info) => SpecFound::FoundFile(finfo_model(info)),
        FileOrValue::Value(v) => SpecFound::FoundValue(crate::data::sv(v)),
    }
}

/// One outcome of running the cross-tree work list a step further: the
/// query is spent; one more result; or a file's bytes are needed before
/// the query can go on past it.
pub enum TreeStep {
    Finished,
    Match(FileOrValue),
    NeedLoad(Vec<usize>),
}

/// The results still owed by a stack of tree frames, top of stack first.
/// A frame pairs a tree address with the position in the path that
/// remains to be matched there.
pub open spec fn tstack_pending(
    root: SpecEntry,
    path: Seq<SpecComponent>,
    frames: Seq<(Vec<usize>, usize)>,
) -> Seq<SpecFound>
    decreases frames.len(),
{
    if frames.len() == 0 {
        Seq::empty()
    } else {
        (match entry_at(root, frames.last().0@) {
            Some(m) => tquery(m, crate::query::suffix(path, frames.last().1 as int)),
            None => Seq::empty(),
        }) + tstack_pending(root, path, frames.drop_last())
    }
}

/// The summed fuel of a stack of tree frames.
pub open spec fn tstack_measure(
    root: SpecEntry,
    plen: int,
    frames: Seq<(Vec<usize>, usize)>,
) -> nat
    decreases frames.len(),
{
    if frames.len() == 0 {
        0
    } else {
        (match entry_at(root, frames.last().0@) {
            Some(m) => tw(m, crate::query::frame_fuel(plen, frames.last().1 as int)),
            None => 1,
        }) + tstack_measure(root, plen, frames.drop_last())
    }
}

/// The models of a directory's entry vector.
pub open spec fn dmodel(s: Seq<(String, FileEntry)>) -> Seq<(Seq<char>, SpecEntry)> {
    s.map_values(|e: (String, FileEntry)| (e.0@, te(e.1)))
}

/// Stepping into a child: a tree address extended at the end leads to the
/// numbered child of where the shorter address leads.
pub proof fn lemma_entry_at_push(root: SpecEntry, a: Seq<usize>, j: usize)
    ensures
        entry_at(root, a.push(j)) == (match entry_at(root, a) {
            Some(e) => if e is Dir && (j as int) < skid_count(e) {
                Some(skid_at(e, j as int))
            } else {
                None::<SpecEntry>
            },
            None => None::<SpecEntry>,
        }),
    decreases a.len(),
{
    if a.len() == 0 {
        assert(a.push(j).drop_first() =~= Seq::<usize>::empty());
    } else {
        assert(a.push(j)[0] == a[0]);
        assert(a.push(j).drop_first() =~= a.drop_first().push(j));
        if root is Dir && 0 <= a[0] < skid_count(root) {
            lemma_entry_at_push(skid_at(root, a[0] as int), a.drop_first(), j);
        }
    }
}

/// Copies a tree address.
fn clone_addr(a: &Vec<usize>) -> (r: Vec<usize>)
    ensures
        r@ == a@,
{
    let mut out: Vec<usize> = Vec::new();
    let mut i: usize = 0;
    proof {
        assert(out@ =~= a@.subrange(0, 0));
    }
    while i < a.len()
        invariant
            i <= a@.len(),
            out@ == a@.subrange(0, i as int),
        decreases a@.len() - i,
    {
        let x = a[i];
        out.push(x);
        proof {
            assert(out@ =~= a@.subrange(0, i + 1));
        }
        i = i + 1;
    }
    proof {
        assert(out@ =~= a@);
    }
    out
}

/// Walks an address down the tree.
fn entry_at_exec<'a>(root: &'a FileEntry, addr: &Vec<usize>) -> (r: Option<&'a FileEntry>)
    ensures
        match entry_at(te(*root), addr@) {
            Some(m) => r is Some && te(*r->0) == m,
            None => r is None,
        },
{
    let mut cur: &FileEntry = root;
    let mut i: usize = 0;
    proof {
        assert(addr@.skip(0) =~= addr@);
    }
    while i < addr.len()
        invariant
            i <= addr@.len(),
            entry_at(te(*root), addr@) == entry_at(te(*cur), addr@.skip(i as int)),
        decreases addr@.len() - i,
    {
        let ghost cm = te(*cur);
        proof {
            assert(addr@.skip(i as int)[0] == addr@[i as int]);
            assert(addr@.skip(i as int).drop_first() =~= addr@.skip(i + 1));
        }
        match cur {
            FileEntry::Dir(entries) => {
                proof {
                    lemma_te_entries_index(*cur, 0);
                }
                let ix = addr[i];
                if ix >= entries.len() {
                    return None;
                }
                proof {
                    assert(skid_at(cm, ix as int) == te_entries(*cur, 0)[ix as int].1);
                    assert(skid_at(cm, ix as int) == te(cur->Dir_0@[ix as int].1));
                }
                cur = &entries[ix].1;
            },
            _ => {
                return None;
            },
        }
        i = i + 1;
    }
    proof {
        assert(addr@.skip(addr@.len() as int) =~= Seq::<usize>::empty());
    }
    Some(cur)
}

/// Index of the first entry whose name equals `target`, or the entry
/// count when no name matches.
fn find_dir_entry(entries: &Vec<(String, FileEntry)>, target: &String) -> (j: usize)
    ensures
        j as int == find_ekey(dmodel(entries@), target@, 0),
        j <= entries@.len(),
{
    let n = entries.len();
    let mut j: usize = 0;
    while j < n
        invariant
            j <= n,
            n == entries@.len(),
            find_ekey(dmodel(entries@), target@, 0) == find_ekey(
                dmodel(entries@),
                target@,
                j as int,
            ),
        decreases n - j,
    {
        if crate::text::str_eq(entries[j].0.as_str(), target.as_str()) {
            proof {
                assert(dmodel(entries@)[j as int].0 == entries@[j as int].0@);
            }
            return j;
        }
        proof {
            assert(dmodel(entries@)[j as int].0 == entries@[j as int].0@);
        }
        j = j + 1;
    }
    j
}

/// A lazy cross-tree query: path components descend the directory tree;
/// at a file leaf the remaining components are handed to the file's
/// metadata.  The engine never reads file bytes itself: where an unloaded
/// file stands in the way it reports the file's address and waits for
/// the caller to load it.
pub struct FileOrValueIter {
    path: Vec<PathComponent>,
    tree_frames: Vec<(Vec<usize>, usize)>,
    val_frames: Vec<(Value, usize)>,
}

/// A sequence of value-query results, each wrapped as a cross-tree
/// result.
pub open spec fn found_map(s: Seq<SpecValue>) -> Seq<SpecFound> {
    s.map_values(|v: SpecValue| SpecFound::FoundValue(v))
}

/// `found_map` distributes over concatenation.
pub proof fn lemma_found_map_concat(a: Seq<SpecValue>, b: Seq<SpecValue>)
    ensures
        found_map(a + b) == found_map(a) + found_map(b),
{
    assert(found_map(a + b) =~= found_map(a) + found_map(b));
}

impl FileOrValueIter {
    /// The results this query has still to produce against `root`, in
    /// order.
    pub closed spec fn pending(&self, root: SpecEntry) -> Seq<SpecFound> {
        found_map(crate::query::stack_pending(cmodel(self.path@), self.val_frames@))
            + tstack_pending(root, cmodel(self.path@), self.tree_frames@)
    }

    /// Starts a query of `path` against the root of a tree.
    pub fn new(path: &PathIter) -> (r: FileOrValueIter)
        ensures
            forall|rm: SpecEntry| #[trigger] r.pending(rm) == tquery(rm, path.remaining()),
    {
        let comps = path.remaining_components();
        let mut tree_frames: Vec<(Vec<usize>, usize)> = Vec::new();
        tree_frames.push((Vec::new(), 0));
        let it = FileOrValueIter { path: comps, tree_frames, val_frames: Vec::new() };
        proof {
            let pm = cmodel(it.path@);
            assert forall|rm: SpecEntry| #[trigger] it.pending(rm) == tquery(
                rm,
                path.remaining(),
            ) by {
                assert(it.tree_frames@.len() == 1);
                assert(it.tree_frames@.drop_last() =~= Seq::<(Vec<usize>, usize)>::empty());
                assert(it.tree_frames@.last().0@ =~= Seq::<usize>::empty());
                assert(entry_at(rm, it.tree_frames@.last().0@) == Some(rm));
                assert(crate::query::suffix(pm, 0) =~= pm);
                assert(crate::query::stack_pending(pm, it.val_frames@) =~= Seq::<
                    SpecValue,
                >::empty());
                assert(found_map(Seq::<SpecValue>::empty()) =~= Seq::<SpecFound>::empty());
                assert(tstack_pending(rm, pm, it.tree_frames@) == tquery(
                    rm,
                    crate::query::suffix(pm, 0),
                ) + tstack_pending(rm, pm, it.tree_frames@.drop_last()));
                assert(it.pending(rm) =~= tquery(rm, pm));
            }
        }
        it
    }
}


/// Under a fully loaded tree, every child is fully loaded.
pub proof fn lemma_fully_loaded_kid(m: SpecEntry, i: int, j: int)
    requires
        fully_loaded_kids(m, i),
        0 <= i <= j < skid_count(m),
    ensures
        fully_loaded(skid_at(m, j)),
    decreases j - i,
{
    if i < j {
        lemma_fully_loaded_kid(m, i + 1, j);
    }
}

/// Under a fully loaded tree, every reachable file is loaded.
pub proof fn lemma_fully_loaded_at(root: SpecEntry, a: Seq<usize>)
    requires
        fully_loaded(root),
        entry_at(root, a) is Some,
    ensures
        fully_loaded(entry_at(root, a)->0),
    decreases a.len(),
{
    if a.len() > 0 {
        lemma_fully_loaded_kid(root, 0, a[0] as int);
        lemma_fully_loaded_at(skid_at(root, a[0] as int), a.drop_first());
    }
}

/// One tree step for a literal-name component at a directory: descend
/// into the matching entry, or drop the branch.
#[verifier::loop_isolation(false)]
#[verifier::rlimit(100)]
fn dir_step_name(
    path: &Vec<PathComponent>,
    frames: &mut Vec<(Vec<usize>, usize)>,
    entries: &Vec<(String, FileEntry)>,
    addr: Vec<usize>,
    s: usize,
    nm: &String,
    Ghost(rm): Ghost<SpecEntry>,
)
    requires
        (s as int) < path@.len(),
        cmodel(path@)[s as int] == SpecComponent::Name(nm@),
        entry_at(rm, addr@) is Some,
        entry_at(rm, addr@)->0 is Dir,
        entry_at(rm, addr@)->0->Dir_0 == dmodel(entries@),
    ensures
        tstack_pending(rm, cmodel(path@), final(frames)@) == tquery(
            entry_at(rm, addr@)->0,
            crate::query::suffix(cmodel(path@), s as int),
        ) + tstack_pending(rm, cmodel(path@), old(frames)@),
        tstack_measure(rm, path@.len() as int, final(frames)@) < tw(
            entry_at(rm, addr@)->0,
            crate::query::frame_fuel(path@.len() as int, s as int),
        ) + tstack_measure(rm, path@.len() as int, old(frames)@),
{
    let ghost pm = cmodel(path@);
    let ghost pl = pm.len() as int;
    let ghost em = entry_at(rm, addr@)->0;
    let ghost es = em->Dir_0;
    let ghost subp = crate::query::suffix(pm, s as int);
    let ghost nsubp = crate::query::suffix(pm, s + 1);
    let ghost rest = tstack_pending(rm, pm, frames@);
    let ghost restm = tstack_measure(rm, pl, frames@);
    let ghost r = crate::query::frame_fuel(pl, s as int);
    let ghost fw = tw(em, r);
    let plen = path.len();
    let ghost key = crate::text::spec_lower(nm@);
    proof {
        assert(pm.len() == path@.len());
        lemma_tw_pos(em, r);
        assert(s < plen);
        assert(subp[0] == pm[s as int]);
        assert(subp.drop_first() =~= nsubp);
    }
    let target = crate::text::ascii_lower(nm.as_str());
    let en = entries.len();
    let j = find_dir_entry(entries, &target);
    proof {
        lemma_find_ekey(es, key, 0);
    }
    if j < en {
        proof {
            lemma_entry_at_push(rm, addr@, j);
            assert(skid_at(em, j as int) == es[j as int].1);
            assert(entry_at(rm, addr@.push(j)) == Some(skid_at(em, j as int)));
            assert(tquery(em, subp) == tquery(es[j as int].1, nsubp));
        }
        let mut a2 = clone_addr(&addr);
        a2.push(j);
        proof {
            assert(a2@ =~= addr@.push(j));
        }
        let ghost fprev = frames@;
        frames.push((a2, s + 1));
        proof {
            assert(frames@.drop_last() =~= fprev);
            assert(crate::query::frame_fuel(pl, s + 1) == (r - 1) as nat);
            lemma_tw_mono(es[j as int].1, (r - 1) as nat, r);
            lemma_tw_kids_bound(em, 0, j as int, r);
            assert(tw(es[j as int].1, (r - 1) as nat) < fw);
            assert(tstack_measure(rm, pl, frames@) < fw + restm);
            assert(tstack_pending(rm, pm, frames@) == tquery(es[j as int].1, nsubp) + rest);
        }
    } else {
        proof {
            assert(tquery(em, subp) =~= Seq::<SpecFound>::empty());
            assert(tquery(em, subp) + rest =~= rest);
        }
    }
}

/// One tree step for a single-level wildcard at a directory: expand every
/// entry.
#[verifier::loop_isolation(false)]
#[verifier::rlimit(100)]
fn dir_step_any(
    path: &Vec<PathComponent>,
    frames: &mut Vec<(Vec<usize>, usize)>,
    entries: &Vec<(String, FileEntry)>,
    addr: Vec<usize>,
    s: usize,
    Ghost(rm): Ghost<SpecEntry>,
)
    requires
        (s as int) < path@.len(),
        cmodel(path@)[s as int] is Any,
        entry_at(rm, addr@) is Some,
        entry_at(rm, addr@)->0 is Dir,
        entry_at(rm, addr@)->0->Dir_0 == dmodel(entries@),
    ensures
        tstack_pending(rm, cmodel(path@), final(frames)@) == tquery(
            entry_at(rm, addr@)->0,
            crate::query::suffix(cmodel(path@), s as int),
        ) + tstack_pending(rm, cmodel(path@), old(frames)@),
        tstack_measure(rm, path@.len() as int, final(frames)@) < tw(
            entry_at(rm, addr@)->0,
            crate::query::frame_fuel(path@.len() as int, s as int),
        ) + tstack_measure(rm, path@.len() as int, old(frames)@),
{
    let ghost pm = cmodel(path@);
    let ghost pl = pm.len() as int;
    let ghost em = entry_at(rm, addr@)->0;
    let ghost subp = crate::query::suffix(pm, s as int);
    let ghost nsubp = crate::query::suffix(pm, s + 1);
    let ghost rest = tstack_pending(rm, pm, frames@);
    let ghost restm = tstack_measure(rm, pl, frames@);
    let ghost r = crate::query::frame_fuel(pl, s as int);
    let ghost fw = tw(em, r);
    let plen = path.len();
    proof {
        assert(pm.len() == path@.len());
        lemma_tw_pos(em, r);
        assert(s < plen);
        assert(subp[0] == pm[s as int]);
        assert(subp.drop_first() =~= nsubp);
        assert(tquery(em, subp) == tquery_kids(em, 0, nsubp));
        assert(skid_count(em) == entries@.len());
        assert(tw_kids(em, entries@.len() as int, (r - 1) as nat) == 0);
        assert(crate::query::frame_fuel(pl, s + 1) == (r - 1) as nat);
    }
    let mut i = entries.len();
    while i > 0
        invariant
            i <= entries@.len(),
            tstack_pending(rm, pm, frames@) == tquery_kids(em, i as int, nsubp) + rest,
            tstack_measure(rm, pl, frames@) == tw_kids(em, i as int, (r - 1) as nat) + restm,
        decreases i,
    {
        i = i - 1;
        proof {
            lemma_entry_at_push(rm, addr@, i);
            assert(skid_at(em, i as int) == dmodel(entries@)[i as int].1);
            assert(entry_at(rm, addr@.push(i)) == Some(skid_at(em, i as int)));
        }
        let mut a2 = clone_addr(&addr);
        a2.push(i);
        proof {
            assert(a2@ =~= addr@.push(i));
        }
        let ghost fprev = frames@;
        frames.push((a2, s + 1));
        proof {
            assert(frames@.drop_last() =~= fprev);
            assert(tstack_pending(rm, pm, frames@) == tquery(skid_at(em, i as int), nsubp) + (
            tquery_kids(em, i + 1, nsubp) + rest));
            assert(tquery(skid_at(em, i as int), nsubp) + (tquery_kids(em, i + 1, nsubp) + rest)
                =~= (tquery(skid_at(em, i as int), nsubp) + tquery_kids(em, i + 1, nsubp))
                + rest);
            assert(tstack_measure(rm, pl, frames@) == tw(skid_at(em, i as int), (r - 1) as nat)
                + (tw_kids(em, i + 1, (r - 1) as nat) + restm));
            assert(tstack_measure(rm, pl, frames@) == tw_kids(em, i as int, (r - 1) as nat)
                + restm);
        }
    }
    proof {
        lemma_tw_kids_le(em, 0, (r - 1) as nat, r);
        assert(tstack_measure(rm, pl, frames@) < fw + restm);
    }
}

/// One tree step for a recursive wildcard at a directory: the directory
/// itself continues with the remaining path, and every entry restarts at
/// the wildcard.
#[verifier::loop_isolation(false)]
#[verifier::rlimit(100)]
fn dir_step_recursive(
    path: &Vec<PathComponent>,
    frames: &mut Vec<(Vec<usize>, usize)>,
    entries: &Vec<(String, FileEntry)>,
    addr: Vec<usize>,
    s: usize,
    Ghost(rm): Ghost<SpecEntry>,
)
    requires
        (s as int) < path@.len(),
        cmodel(path@)[s as int] is AnyRecursive,
        entry_at(rm, addr@) is Some,
        entry_at(rm, addr@)->0 is Dir,
        entry_at(rm, addr@)->0->Dir_0 == dmodel(entries@),
    ensures
        tstack_pending(rm, cmodel(path@), final(frames)@) == tquery(
            entry_at(rm, addr@)->0,
            crate::query::suffix(cmodel(path@), s as int),
        ) + tstack_pending(rm, cmodel(path@), old(frames)@),
        tstack_measure(rm, path@.len() as int, final(frames)@) < tw(
            entry_at(rm, addr@)->0,
            crate::query::frame_fuel(path@.len() as int, s as int),
        ) + tstack_measure(rm, path@.len() as int, old(frames)@),
{
    let ghost pm = cmodel(path@);
    let ghost pl = pm.len() as int;
    let ghost em = entry_at(rm, addr@)->0;
    let ghost subp = crate::query::suffix(pm, s as int);
    let ghost nsubp = crate::query::suffix(pm, s + 1);
    let ghost rest = tstack_pending(rm, pm, frames@);
    let ghost restm = tstack_measure(rm, pl, frames@);
    let ghost r = crate::query::frame_fuel(pl, s as int);
    let ghost fw = tw(em, r);
    let plen = path.len();
    proof {
        assert(pm.len() == path@.len());
        lemma_tw_pos(em, r);
        assert(s < plen);
        assert(subp[0] == pm[s as int]);
        assert(subp.drop_first() =~= nsubp);
        assert(skid_count(em) == entries@.len());
        assert(tw_kids(em, entries@.len() as int, r) == 0);
        assert(crate::query::frame_fuel(pl, s as int) == r);
    }
    let mut i = entries.len();
    while i > 0
        invariant
            i <= entries@.len(),
            tstack_pending(rm, pm, frames@) == tquery_kids(em, i as int, subp) + rest,
            tstack_measure(rm, pl, frames@) == tw_kids(em, i as int, r) + restm,
        decreases i,
    {
        i = i - 1;
        proof {
            lemma_entry_at_push(rm, addr@, i);
            assert(skid_at(em, i as int) == dmodel(entries@)[i as int].1);
            assert(entry_at(rm, addr@.push(i)) == Some(skid_at(em, i as int)));
        }
        let mut a2 = clone_addr(&addr);
        a2.push(i);
        proof {
            assert(a2@ =~= addr@.push(i));
        }
        let ghost fprev = frames@;
        frames.push((a2, s));
        proof {
            assert(frames@.drop_last() =~= fprev);
            assert(tstack_pending(rm, pm, frames@) == tquery(skid_at(em, i as int), subp) + (
            tquery_kids(em, i + 1, subp) + rest));
            assert(tquery(skid_at(em, i as int), subp) + (tquery_kids(em, i + 1, subp) + rest)
                =~= (tquery(skid_at(em, i as int), subp) + tquery_kids(em, i + 1, subp)) + rest);
            assert(tstack_measure(rm, pl, frames@) == tw(skid_at(em, i as int), r) + (tw_kids(
                em,
                i + 1,
                r,
            ) + restm));
            assert(tstack_measure(rm, pl, frames@) == tw_kids(em, i as int, r) + restm);
        }
    }
    let ghost fprev = frames@;
    frames.push((addr, s + 1));
    proof {
        assert(frames@.drop_last() =~= fprev);
        assert(frames@.last().0@ == addr@);
        assert(crate::query::frame_fuel(pl, s + 1) == (r - 1) as nat);
        assert(tstack_pending(rm, pm, frames@) == tquery(em, nsubp) + (tquery_kids(em, 0, subp)
            + rest));
        assert(tquery(em, subp) == tquery(em, nsubp) + tquery_kids(em, 0, subp));
        assert(tquery(em, nsubp) + (tquery_kids(em, 0, subp) + rest) =~= (tquery(em, nsubp)
            + tquery_kids(em, 0, subp)) + rest);
        assert(tstack_measure(rm, pl, frames@) == tw(em, (r - 1) as nat) + (tw_kids(em, 0, r)
            + restm));
        assert(tw(em, r) == 1 + tw(em, (r - 1) as nat) + tw_kids(em, 0, r));
        assert(tstack_measure(rm, pl, frames@) < fw + restm);
    }
}


impl FileOrValueIter {
    /// Runs the work list one result further against `root`.  The step
    /// either finishes the query, hands out one more match, or asks for
    /// the bytes of the unloaded file standing in the way; against a
    /// fully loaded tree it never asks.
    #[verifier::loop_isolation(false)]
    #[verifier::rlimit(100)]
    pub fn next(&mut self, root: &FileEntry) -> (r: TreeStep)
        ensures
            (r matches TreeStep::NeedLoad(a) ==> entry_at(te(*root), a@) is Some && entry_at(
                te(*root),
                a@,
            )->0 is File && entry_at(te(*root), a@)->0->File_1 is None && final(self).pending(
                te(*root),
            ) == old(self).pending(te(*root))),
            r is Finished ==> old(self).pending(te(*root)).len() == 0 && final(self).pending(
                te(*root),
            ).len() == 0,
            (r matches TreeStep::Match(x) ==> old(self).pending(te(*root)).len() > 0 && fv_model(
                x,
            ) == old(self).pending(te(*root))[0] && final(self).pending(te(*root)) == old(
                self,
            ).pending(te(*root)).drop_first()),
            fully_loaded(te(*root)) ==> !(r is NeedLoad),
    {
        let ghost rm = te(*root);
        let ghost pm = cmodel(self.path@);
        let ghost pl = pm.len() as int;
        let plen = self.path.len();
        loop
            invariant
                self.path@ == old(self).path@,
                found_map(crate::query::stack_pending(pm, self.val_frames@)) + tstack_pending(
                    rm,
                    pm,
                    self.tree_frames@,
                ) == old(self).pending(rm),
            decreases crate::query::stack_measure(pl, self.val_frames@) + tstack_measure(
                rm,
                pl,
                self.tree_frames@,
            ),
        {
            if self.val_frames.len() > 0 {
                let ghost ventry = crate::query::stack_measure(pl, self.val_frames@);
                let frame = self.val_frames.pop().unwrap();
                let v = frame.0;
                let s = frame.1;
                let ghost m = crate::data::sv(v);
                let ghost subp = crate::query::suffix(pm, s as int);
                let ghost vrest = crate::query::stack_pending(pm, self.val_frames@);
                let ghost vrestm = crate::query::stack_measure(pl, self.val_frames@);
                let ghost trest = tstack_pending(rm, pm, self.tree_frames@);
                let ghost fw = crate::query::fweight(m, crate::query::frame_fuel(pl, s as int));
                proof {
                    crate::query::lemma_fweight_pos(m, crate::query::frame_fuel(pl, s as int));
                    assert(old(self).pending(rm) == found_map(
                        crate::query::svquery(m, subp) + vrest,
                    ) + trest);
                    lemma_found_map_concat(crate::query::svquery(m, subp), vrest);
                    assert(ventry == fw + vrestm);
                }
                if s >= plen {
                    proof {
                        assert(subp =~= Seq::<SpecComponent>::empty());
                        assert(crate::query::svquery(m, subp) == seq![m]);
                        assert(found_map(seq![m]) =~= seq![SpecFound::FoundValue(m)]);
                        assert((seq![SpecFound::FoundValue(m)] + (found_map(vrest)
                            + trest)).drop_first() =~= found_map(vrest) + trest);
                        assert(old(self).pending(rm) =~= seq![SpecFound::FoundValue(m)] + (
                        found_map(vrest) + trest));
                    }
                    return TreeStep::Match(FileOrValue::Value(v));
                }
                match &self.path[s] {
                    PathComponent::Name(nm) => {
                        proof {
                            assert(pm[s as int] == SpecComponent::Name(nm@));
                            crate::data::lemma_sv_unfold(v);
                        }
                        match v {
                            Value::Mapping(entries) => {
                                crate::query::step_name_mapping(
                                    &self.path,
                                    &mut self.val_frames,
                                    entries,
                                    s,
                                    nm,
                                );
                            },
                            Value::Sequence(items) => {
                                crate::query::step_name_sequence(
                                    &self.path,
                                    &mut self.val_frames,
                                    items,
                                    s,
                                    nm,
                                );
                            },
                            _ => {
                                proof {
                                    assert(!(m is Dict) && !(m is List));
                                    assert(crate::query::svquery(m, subp) =~= Seq::<
                                        SpecValue,
                                    >::empty());
                                    assert(crate::query::svquery(m, subp) + vrest =~= vrest);
                                }
                            },
                        }
                    },
                    PathComponent::Any => {
                        proof {
                            assert(pm[s as int] == SpecComponent::Any);
                        }
                        let yielded = crate::query::step_any(
                            &self.path,
                            &mut self.val_frames,
                            v,
                            s,
                        );
                        if let Some(x) = yielded {
                            proof {
                                assert(crate::query::svquery(m, subp) == seq![
                                    crate::data::sv(x),
                                ]);
                                assert(found_map(seq![crate::data::sv(x)]) =~= seq![
                                    SpecFound::FoundValue(crate::data::sv(x)),
                                ]);
                                assert(old(self).pending(rm) =~= seq![
                                    SpecFound::FoundValue(crate::data::sv(x)),
                                ] + (found_map(vrest) + trest));
                                assert((seq![SpecFound::FoundValue(crate::data::sv(x))] + (
                                found_map(vrest) + trest)).drop_first() =~= found_map(vrest)
                                    + trest);
                            }
                            return TreeStep::Match(FileOrValue::Value(x));
                        }
                    },
                    PathComponent::AnyRecursive => {
                        proof {
                            assert(pm[s as int] == SpecComponent::AnyRecursive);
                        }
                        crate::query::step_recursive(&self.path, &mut self.val_frames, v, s);
                    },
                }
                proof {
                    lemma_found_map_concat(
                        crate::query::svquery(m, subp),
                        crate::query::stack_pending(pm, self.val_frames@),
                    );
                }
            } else if self.tree_frames.len() > 0 {
                let ghost tentry = tstack_measure(rm, pl, self.tree_frames@);
                let frame = self.tree_frames.pop().unwrap();
                let addr = frame.0;
                let s = frame.1;
                let ghost em_opt = entry_at(rm, addr@);
                let ghost subp = crate::query::suffix(pm, s as int);
                let ghost trest = tstack_pending(rm, pm, self.tree_frames@);
                let ghost trestm = tstack_measure(rm, pl, self.tree_frames@);
                let ghost r0 = crate::query::frame_fuel(pl, s as int);
                proof {
                    assert(crate::query::stack_pending(pm, self.val_frames@) =~= Seq::<
                        SpecValue,
                    >::empty());
                    assert(found_map(Seq::<SpecValue>::empty()) =~= Seq::<SpecFound>::empty());
                }
                match entry_at_exec(root, &addr) {
                    None => {
                        proof {
                            assert(em_opt is None);
                            assert(old(self).pending(rm) =~= tstack_pending(
                                rm,
                                pm,
                                self.tree_frames@,
                            ));
                        }
                    },
                    Some(cur) => {
                        let ghost em = te(*cur);
                        proof {
                            assert(em_opt == Some(em));
                            lemma_tw_pos(em, r0);
                            assert(tentry == tw(em, r0) + trestm);
                            assert(old(self).pending(rm) == tquery(em, subp) + trest);
                        }
                        match cur {
                            FileEntry::File(f) => {
                                if s >= plen {
                                    let info = f.info().clone();
                                    proof {
                                        assert(subp =~= Seq::<SpecComponent>::empty());
                                        assert(tquery(em, subp) == seq![
                                            SpecFound::FoundFile(em->File_0),
                                        ]);
                                        assert(finfo_model(info) == em->File_0);
                                        assert((seq![SpecFound::FoundFile(em->File_0)]
                                            + trest).drop_first() =~= trest);
                                    }
                                    return TreeStep::Match(FileOrValue::File(info));
                                }
                                if !f.is_loaded() {
                                    let back = clone_addr(&addr);
                                    let ghost fprev = self.tree_frames@;
                                    self.tree_frames.push((addr, s));
                                    proof {
                                        assert(self.tree_frames@.drop_last() =~= fprev);
                                        assert(em->File_1 is None);
                                        assert(tquery(em, subp) =~= Seq::<SpecFound>::empty());
                                        assert(tquery(em, subp) + trest =~= trest);
                                        if fully_loaded(rm) {
                                            lemma_fully_loaded_at(rm, back@);
                                        }
                                    }
                                    return TreeStep::NeedLoad(back);
                                }
                                match f.meta() {
                                    None => {
                                        proof {
                                            assert(em->File_1 == Some(
                                                None::<SpecValue>,
                                            ));
                                            assert(tquery(em, subp) =~= Seq::<
                                                SpecFound,
                                            >::empty());
                                            assert(tquery(em, subp) + trest =~= trest);
                                        }
                                    },
                                    Some(meta) => {
                                        let mv = meta.to_value();
                                        let ghost fprev = self.val_frames@;
                                        self.val_frames.push((mv, s));
                                        proof {
                                            assert(self.val_frames@.drop_last() =~= fprev);
                                            assert(em->File_1 == Some(Some(meta.model())));
                                            assert(crate::query::stack_pending(
                                                pm,
                                                self.val_frames@,
                                            ) =~= crate::query::svquery(meta.model(), subp));
                                            assert(tquery(em, subp) == found_map(
                                                crate::query::svquery(meta.model(), subp),
                                            ));
                                            assert(crate::query::stack_measure(
                                                pl,
                                                self.val_frames@,
                                            ) == crate::query::fweight(meta.model(), r0));
                                            assert(tw(em, r0) == 1 + crate::query::fweight(
                                                meta.model(),
                                                r0,
                                            ));
                                        }
                                    },
                                }
                            },
                            FileEntry::Dir(entries) => {
                                proof {
                                    lemma_te_entries_index(*cur, 0);
                                    assert(em->Dir_0 =~= dmodel(entries@));
                                }
                                if s >= plen {
                                    proof {
                                        assert(subp =~= Seq::<SpecComponent>::empty());
                                        assert(tquery(em, subp) =~= Seq::<SpecFound>::empty());
                                        assert(tquery(em, subp) + trest =~= trest);
                                    }
                                } else {
                                    match &self.path[s] {
                                        PathComponent::Name(nm) => {
                                            proof {
                                                assert(pm[s as int] == SpecComponent::Name(
                                                    nm@,
                                                ));
                                            }
                                            dir_step_name(
                                                &self.path,
                                                &mut self.tree_frames,
                                                entries,
                                                addr,
                                                s,
                                                nm,
                                                Ghost(rm),
                                            );
                                        },
                                        PathComponent::Any => {
                                            proof {
                                                assert(pm[s as int] == SpecComponent::Any);
                                            }
                                            dir_step_any(
                                                &self.path,
                                                &mut self.tree_frames,
                                                entries,
                                                addr,
                                                s,
                                                Ghost(rm),
                                            );
                                        },
                                        PathComponent::AnyRecursive => {
                                            proof {
                                                assert(pm[s as int]
                                                    == SpecComponent::AnyRecursive);
                                            }
                                            dir_step_recursive(
                                                &self.path,
                                                &mut self.tree_frames,
                                                entries,
                                                addr,
                                                s,
                                                Ghost(rm),
                                            );
                                        },
                                    }
                                }
                            },
                        }
                    },
                }
            } else {
                proof {
                    assert(crate::query::stack_pending(pm, self.val_frames@) =~= Seq::<
                        SpecValue,
                    >::empty());
                    assert(found_map(Seq::<SpecValue>::empty()) =~= Seq::<SpecFound>::empty());
                    assert(old(self).pending(rm) =~= Seq::<SpecFound>::empty());
                }
                return TreeStep::Finished;
            }
        }
    }
}


/// Which formats a tree of the given kind accepts.
pub open spec fn accepts(kind: FileKind, format: FileFormat) -> bool {
    match kind {
        FileKind::Page => format is Html || format is Markdown || format is Rhai,
        FileKind::Layout => format is Html,
        FileKind::Include => true,
    }
}

/// Tests whether a tree of the given kind accepts a format.
fn accepts_exec(kind: FileKind, format: FileFormat) -> (r: bool)
    ensures
        r == accepts(kind, format),
{
    match kind {
        FileKind::Page => matches!(format, FileFormat::Html) || matches!(
            format,
            FileFormat::Markdown,
        ) || matches!(format, FileFormat::Rhai),
        FileKind::Layout => matches!(format, FileFormat::Html),
        FileKind::Include => true,
    }
}

/// The models of a list of strings.
pub open spec fn smodel(s: Seq<String>) -> Seq<Seq<char>> {
    s.map_values(|x: String| x@)
}

/// The lower-cased, non-empty segments of a raw directory part, split on
/// separators, from position `p` on.
pub open spec fn dir_segs(s: Seq<char>, p: int) -> Seq<Seq<char>>
    decreases s.len() - p,
    via dir_segs_decreases
{
    if p < 0 || p >= s.len() {
        Seq::empty()
    } else {
        let e = crate::file::next_sep(s, p);
        let here: Seq<Seq<char>> = if e > p {
            seq![crate::text::spec_lower(s.subrange(p, e))]
        } else {
            Seq::empty()
        };
        if e >= s.len() {
            here
        } else {
            here + dir_segs(s, e + 1)
        }
    }
}

#[via_fn]
proof fn dir_segs_decreases(s: Seq<char>, p: int) {
    if 0 <= p < s.len() {
        crate::file::lemma_next_sep_bounds(s, p);
    }
}

/// Splits a raw directory part (separator-led segments, as the
/// classification leaves it) into lower-cased segment names, dropping
/// empty segments.
fn dir_segments(d: &str) -> (r: Vec<String>)
    ensures
        smodel(r@) == dir_segs(d@, 0),
{
    let n = d.unicode_len();
    let mut out: Vec<String> = Vec::new();
    let mut p: usize = 0;
    proof {
        assert(smodel(out@) =~= Seq::<Seq<char>>::empty());
        assert(smodel(out@) + dir_segs(d@, 0) =~= dir_segs(d@, 0));
    }
    loop
        invariant_except_break
            p <= n,
            n == d@.len(),
            smodel(out@) + dir_segs(d@, p as int) == dir_segs(d@, 0),
        ensures
            smodel(out@) == dir_segs(d@, 0),
        decreases n - p,
    {
        if p >= n {
            proof {
                assert(dir_segs(d@, p as int) =~= Seq::<Seq<char>>::empty());
                assert(smodel(out@) =~= smodel(out@) + dir_segs(d@, p as int));
            }
            break ;
        }
        let mut e: usize = p;
        while e < n && !is_sep_char(d.get_char(e))
            invariant
                p <= e <= n,
                n == d@.len(),
                crate::file::next_sep(d@, p as int) == crate::file::next_sep(d@, e as int),
            decreases n - e,
        {
            e = e + 1;
        }
        assert(crate::file::next_sep(d@, p as int) == e as int);
        let ghost here: Seq<Seq<char>> = if e > p {
            seq![crate::text::spec_lower(d@.subrange(p as int, e as int))]
        } else {
            Seq::<Seq<char>>::empty()
        };
        let ghost rest: Seq<Seq<char>> = if e >= n {
            Seq::<Seq<char>>::empty()
        } else {
            dir_segs(d@, e + 1)
        };
        proof {
            assert(dir_segs(d@, p as int) =~= here + rest);
        }
        if e > p {
            let seg = d.substring_char(p, e);
            let ghost prev = smodel(out@);
            out.push(crate::text::ascii_lower(seg));
            proof {
                assert(smodel(out@) =~= prev.push(
                    crate::text::spec_lower(d@.subrange(p as int, e as int)),
                ));
                assert(smodel(out@) + rest =~= (prev + (here + rest)));
            }
        } else {
            proof {
                assert(here =~= Seq::<Seq<char>>::empty());
                assert(smodel(out@) + rest =~= smodel(out@) + (here + rest));
            }
        }
        if e >= n {
            proof {
                assert(rest =~= Seq::<Seq<char>>::empty());
                assert(smodel(out@) =~= smodel(out@) + rest);
            }
            break ;
        }
        p = e + 1;
    }
    out
}

/// Tests whether a character separates path segments.
fn is_sep_char(c: char) -> (r: bool)
    ensures
        r == crate::file::is_sep(c),
{
    c == '/' || c == '\\'
}

/// The tree after hanging `f` under the directory segments `segs[i..]`
/// and the name `name`: directories are created where missing, an entry
/// that already carries a wanted name is replaced (a file standing where
/// a directory is needed gives way to a fresh directory).
pub open spec fn spec_insert(
    root: SpecEntry,
    segs: Seq<Seq<char>>,
    i: int,
    name: Seq<char>,
    f: SpecEntry,
) -> SpecEntry
    decreases segs.len() - i,
{
    match root {
        SpecEntry::Dir(entries) => {
            if i >= segs.len() {
                let j = find_ekey(entries, name, 0);
                if j < entries.len() {
                    SpecEntry::Dir(entries.update(j, (name, f)))
                } else {
                    SpecEntry::Dir(entries.push((name, f)))
                }
            } else {
                let j = find_ekey(entries, segs[i], 0);
                if j < entries.len() {
                    let child = if entries[j].1 is Dir {
                        entries[j].1
                    } else {
                        SpecEntry::Dir(Seq::empty())
                    };
                    SpecEntry::Dir(
                        entries.update(j, (segs[i], spec_insert(child, segs, i + 1, name, f))),
                    )
                } else {
                    SpecEntry::Dir(
                        entries.push(
                            (
                                segs[i],
                                spec_insert(SpecEntry::Dir(Seq::empty()), segs, i + 1, name, f),
                            ),
                        ),
                    )
                }
            }
        },
        _ => root,
    }
}

/// Inserts a file under nested directory segments, creating directories
/// as needed; an entry that already carries the same name is replaced.
#[verifier::loop_isolation(false)]
#[verifier::rlimit(60)]
fn tree_insert(e: &mut FileEntry, segs: &Vec<String>, i: usize, name: String, f: File)
    requires
        *old(e) is Dir,
        i <= segs@.len(),
    ensures
        *final(e) is Dir,
        te(*final(e)) == spec_insert(
            te(*old(e)),
            smodel(segs@),
            i as int,
            name@,
            SpecEntry::File(finfo_model(f.spec_info()), file_meta_model(f)),
        ),
    decreases segs@.len() - i,
{
    let ghost oldm = te(*old(e));
    let ghost sm = smodel(segs@);
    let ghost fm = SpecEntry::File(finfo_model(f.spec_info()), file_meta_model(f));
    match e {
        FileEntry::Dir(entries) => {
            proof {
                lemma_te_entries_index(*old(e), 0);
                assert(oldm->Dir_0 =~= dmodel(entries@));
            }
            let ghost old_entries = entries@;
            if i >= segs.len() {
                let j = find_dir_entry(entries, &name);
                proof {
                    lemma_find_ekey(dmodel(old_entries), name@, 0);
                }
                if j < entries.len() {
                    entries.remove(j);
                    entries.insert(j, (name, FileEntry::File(f)));
                    proof {
                        assert(entries@ =~= old_entries.update(j as int, (
                            entries@[j as int].0,
                            entries@[j as int].1,
                        )));
                        lemma_te_entries_index(*e, 0);
                        assert(te(*e)->Dir_0 =~= oldm->Dir_0.update(j as int, (name@, fm)));
                    }
                } else {
                    entries.push((name, FileEntry::File(f)));
                    proof {
                        lemma_te_entries_index(*e, 0);
                        assert(te(*e)->Dir_0 =~= oldm->Dir_0.push((name@, fm)));
                    }
                }
            } else {
                let seg = segs[i].clone();
                let j = find_dir_entry(entries, &seg);
                proof {
                    lemma_find_ekey(dmodel(old_entries), seg@, 0);
                    assert(sm[i as int] == seg@);
                }
                if j < entries.len() {
                    let is_dir = matches!(&entries[j].1, FileEntry::Dir(_));
                    let ghost childm: SpecEntry = if is_dir {
                        te(old_entries[j as int].1)
                    } else {
                        SpecEntry::Dir(Seq::empty())
                    };
                    proof {
                        assert(dmodel(old_entries)[j as int].1 == te(old_entries[j as int].1));
                        if !is_dir {
                            assert(!(te(old_entries[j as int].1) is Dir));
                        } else {
                            assert(te(old_entries[j as int].1) is Dir);
                        }
                    }
                    if !is_dir {
                        entries.remove(j);
                        entries.insert(j, (seg, FileEntry::Dir(Vec::new())));
                        proof {
                            lemma_te_entries_index(entries@[j as int].1, 0);
                            assert(te(entries@[j as int].1)->Dir_0 =~= Seq::<
                                (Seq<char>, SpecEntry),
                            >::empty());
                            assert(te(entries@[j as int].1) == childm);
                        }
                        let ghost mid_entries = entries@;
                        let sub = &mut entries[j].1;
                        tree_insert(sub, segs, i + 1, name, f);
                        proof {
                            assert(entries@ =~= mid_entries.update(j as int, (
                                mid_entries[j as int].0,
                                entries@[j as int].1,
                            )));
                            lemma_te_entries_index(*e, 0);
                            assert(te(*e)->Dir_0 =~= oldm->Dir_0.update(j as int, (
                                seg@,
                                spec_insert(childm, sm, i + 1, name@, fm),
                            )));
                        }
                    } else {
                        let ghost mid_entries = entries@;
                        let sub = &mut entries[j].1;
                        tree_insert(sub, segs, i + 1, name, f);
                        proof {
                            assert(entries@ =~= mid_entries.update(j as int, (
                                mid_entries[j as int].0,
                                entries@[j as int].1,
                            )));
                            lemma_te_entries_index(*e, 0);
                            assert(dmodel(old_entries)[j as int].0 == seg@);
                            assert(te(*e)->Dir_0 =~= oldm->Dir_0.update(j as int, (
                                seg@,
                                spec_insert(childm, sm, i + 1, name@, fm),
                            )));
                        }
                    }
                } else {
                    entries.push((seg, FileEntry::Dir(Vec::new())));
                    let last = entries.len() - 1;
                    proof {
                        lemma_te_entries_index(entries@[last as int].1, 0);
                        assert(te(entries@[last as int].1) == SpecEntry::Dir(
                            Seq::<(Seq<char>, SpecEntry)>::empty(),
                        ));
                    }
                    let ghost mid_entries = entries@;
                    let sub = &mut entries[last].1;
                    tree_insert(sub, segs, i + 1, name, f);
                    proof {
                        assert(entries@ =~= mid_entries.update(last as int, (
                            mid_entries[last as int].0,
                            entries@[last as int].1,
                        )));
                        lemma_te_entries_index(*e, 0);
                        assert(te(*e)->Dir_0 =~= oldm->Dir_0.push((
                            seg@,
                            spec_insert(
                                SpecEntry::Dir(Seq::empty()),
                                sm,
                                i + 1,
                                name@,
                                fm,
                            ),
                        )));
                    }
                }
            }
        },
        _ => {},
    }
}

/// Whether a path string classifies cleanly.
pub open spec fn path_classifies(s: Seq<char>) -> bool {
    classify_path(s) is Some && crate::file::format_of_text(
        crate::text::spec_lower(s.subrange(classify_path(s)->0.ext_lo, s.len() as int)),
    ) is Some
}

/// What one listed path adds to a tree under construction: nothing when
/// the kind does not accept its format; otherwise an unloaded file under
/// its lower-cased directory segments and name.
pub open spec fn add_path(acc: SpecEntry, s: Seq<char>, kind: FileKind) -> SpecEntry {
    if !path_classifies(s) {
        acc
    } else {
        let parts = classify_path(s)->0;
        let fmt = crate::file::format_of_text(
            crate::text::spec_lower(s.subrange(parts.ext_lo, s.len() as int)),
        )->0;
        if !accepts(kind, fmt) {
            acc
        } else {
            let segs: Seq<Seq<char>> = if parts.dir_hi > parts.dir_lo {
                dir_segs(s.subrange(parts.dir_lo, parts.dir_hi), 0)
            } else {
                Seq::empty()
            };
            spec_insert(
                acc,
                segs,
                0,
                crate::text::spec_lower(s.subrange(parts.name_lo, parts.name_hi)),
                SpecEntry::File(
                    SpecInfo {
                        kind: parts.kind,
                        path: s,
                        name: s.subrange(parts.name_lo, parts.name_hi),
                        format: fmt,
                    },
                    None,
                ),
            )
        }
    }
}

/// The tree built by adding the listed paths from index `i` on to `acc`.
pub open spec fn built_tree(paths: Seq<Seq<char>>, i: int, acc: SpecEntry, kind: FileKind) -> SpecEntry
    decreases paths.len() - i,
{
    if 0 <= i < paths.len() {
        built_tree(paths, i + 1, add_path(acc, paths[i], kind), kind)
    } else {
        acc
    }
}

/// Builds one file tree from a listing of file paths: each path is
/// classified, filtered by the formats the kind accepts, and the accepted
/// files are hung under their lower-cased directory segments and name.
/// The first classification failure aborts the whole build.
#[verifier::loop_isolation(false)]
#[verifier::rlimit(60)]
fn load_files(paths: &Vec<String>, kind: FileKind) -> (r: Result<FileEntry, FileInfoError>)
    ensures
        (r matches Ok(t) ==> t is Dir && te(t) == built_tree(
            smodel(paths@),
            0,
            SpecEntry::Dir(Seq::empty()),
            kind,
        )),
        r is Err <==> exists|i: int|
            0 <= i < paths@.len() && !path_classifies(#[trigger] paths@[i]@),
        paths@.len() == 0 ==> (r matches Ok(e) && e->Dir_0@.len() == 0),
{
    let mut tree = FileEntry::Dir(Vec::new());
    let ghost pm = smodel(paths@);
    let n = paths.len();
    let mut i: usize = 0;
    proof {
        lemma_te_entries_index(tree, 0);
        assert(te(tree)->Dir_0 =~= Seq::<(Seq<char>, SpecEntry)>::empty());
        assert(te(tree) == SpecEntry::Dir(Seq::<(Seq<char>, SpecEntry)>::empty()));
    }
    while i < n
        invariant
            i <= n,
            n == paths@.len(),
            tree is Dir,
            built_tree(pm, 0, SpecEntry::Dir(Seq::empty()), kind) == built_tree(
                pm,
                i as int,
                te(tree),
                kind,
            ),
            forall|j: int| 0 <= j < i ==> path_classifies(#[trigger] paths@[j]@),
            n == 0 ==> tree->Dir_0@.len() == 0,
        decreases n - i,
    {
        let ghost sp = paths@[i as int]@;
        let info = match FileInfo::from_path(paths[i].as_str()) {
            Ok(info) => info,
            Err(e) => {
                proof {
                    assert(!path_classifies(sp));
                }
                return Err(e);
            },
        };
        let ghost parts = classify_path(sp)->0;
        let ghost fmt = crate::file::format_of_text(
            crate::text::spec_lower(sp.subrange(parts.ext_lo, sp.len() as int)),
        )->0;
        proof {
            assert(path_classifies(sp));
            assert(info.spec_format() == fmt);
        }
        if accepts_exec(kind, info.format()) {
            let segs = match info.directory() {
                Some(d) => dir_segments(d),
                None => Vec::new(),
            };
            proof {
                if info.spec_directory() is None {
                    assert(smodel(segs@) =~= Seq::<Seq<char>>::empty());
                }
            }
            let name = crate::text::ascii_lower(info.name());
            let f = File::from_info(info);
            let ghost fm = SpecEntry::File(finfo_model(f.spec_info()), file_meta_model(f));
            proof {
                assert(fm == SpecEntry::File(
                    SpecInfo {
                        kind: parts.kind,
                        path: sp,
                        name: sp.subrange(parts.name_lo, parts.name_hi),
                        format: fmt,
                    },
                    None,
                ));
                assert(add_path(te(tree), sp, kind) == spec_insert(
                    te(tree),
                    smodel(segs@),
                    0,
                    name@,
                    fm,
                ));
            }
            tree_insert(&mut tree, &segs, 0, name, f);
        } else {
            proof {
                assert(add_path(te(tree), sp, kind) == te(tree));
            }
        }
        i = i + 1;
    }
    proof {
        assert(!(exists|j: int| 0 <= j < paths@.len() && !path_classifies(#[trigger] paths@[j]@)));
    }
    Ok(tree)
}

/// A workspace: its root path/// A workspace: its root path, a flat list of asset paths, and one file
/// tree each for pages, layouts and includes, filtered by the formats
/// each kind accepts.
pub struct Workspace {
    root: String,
    assets: Vec<String>,
    pages: FileEntry,
    layouts: FileEntry,
    includes: FileEntry,
}

impl Workspace {
    /// The model of the pages tree.
    pub closed spec fn spec_pages(&self) -> SpecEntry {
        te(self.pages)
    }

    /// The model of the layouts tree.
    pub closed spec fn spec_layouts(&self) -> SpecEntry {
        te(self.layouts)
    }

    /// The model of the includes tree.
    pub closed spec fn spec_includes(&self) -> SpecEntry {
        te(self.includes)
    }

    /// Builds a workspace from listings of the files found under the
    /// root's `pages`, `layouts`, `includes` and `assets` directories.  A
    /// missing directory is simply an empty listing and yields an empty
    /// tree; a file that does not classify aborts the whole build with
    /// its error.
    pub fn read(
        root: String,
        assets: Vec<String>,
        page_paths: &Vec<String>,
        layout_paths: &Vec<String>,
        include_paths: &Vec<String>,
    ) -> (r: Result<Workspace, FileInfoError>)
        ensures
            r is Err <==> ((exists|i: int|
                0 <= i < page_paths@.len() && !path_classifies(#[trigger] page_paths@[i]@))
                || (exists|i: int|
                0 <= i < layout_paths@.len() && !path_classifies(
                    #[trigger] layout_paths@[i]@,
                )) || (exists|i: int|
                0 <= i < include_paths@.len() && !path_classifies(
                    #[trigger] include_paths@[i]@,
                ))),
            (r matches Ok(w) ==> w.spec_root() == root@ && w.spec_assets() == assets@),
            (r matches Ok(w) ==> w.spec_pages() == built_tree(
                smodel(page_paths@),
                0,
                SpecEntry::Dir(Seq::empty()),
                FileKind::Page,
            ) && w.spec_layouts() == built_tree(
                smodel(layout_paths@),
                0,
                SpecEntry::Dir(Seq::empty()),
                FileKind::Layout,
            ) && w.spec_includes() == built_tree(
                smodel(include_paths@),
                0,
                SpecEntry::Dir(Seq::empty()),
                FileKind::Include,
            )),
            (r matches Ok(w) ==> (layout_paths@.len() == 0 ==> w.spec_layouts() is Dir
                && skid_count(w.spec_layouts()) == 0)),
            (r matches Ok(w) ==> (page_paths@.len() == 0 ==> w.spec_pages() is Dir
                && skid_count(w.spec_pages()) == 0)),
            (r matches Ok(w) ==> (include_paths@.len() == 0 ==> w.spec_includes() is Dir
                && skid_count(w.spec_includes()) == 0)),
    {
        let pages = match load_files(page_paths, FileKind::Page) {
            Ok(t) => t,
            Err(e) => {
                return Err(e);
            },
        };
        let layouts = match load_files(layout_paths, FileKind::Layout) {
            Ok(t) => t,
            Err(e) => {
                return Err(e);
            },
        };
        let includes = match load_files(include_paths, FileKind::Include) {
            Ok(t) => t,
            Err(e) => {
                return Err(e);
            },
        };
        proof {
            if page_paths@.len() == 0 {
                lemma_te_entries_index(pages, 0);
            }
            if layout_paths@.len() == 0 {
                lemma_te_entries_index(layouts, 0);
            }
            if include_paths@.len() == 0 {
                lemma_te_entries_index(includes, 0);
            }
        }
        Ok(Workspace { root, assets, pages, layouts, includes })
    }

    /// The root path, as handed to `read`.
    pub closed spec fn spec_root(&self) -> Seq<char> {
        self.root@
    }

    /// The asset paths, as handed to `read`.
    pub closed spec fn spec_assets(&self) -> Seq<String> {
        self.assets@
    }

    /// The workspace root path.
    pub fn root(&self) -> (r: &str)
        ensures
            r@ == self.spec_root(),
    {
        self.root.as_str()
    }

    /// The asset paths, unparsed.
    pub fn assets(&self) -> (r: &Vec<String>)
        ensures
            r@ == self.spec_assets(),
    {
        &self.assets
    }

    /// The pages tree, for driving a query.
    pub fn pages_tree(&self) -> (r: &FileEntry)
        ensures
            te(*r) == self.spec_pages(),
    {
        &self.pages
    }

    /// The layouts tree, for driving a query.
    pub fn layouts_tree(&self) -> (r: &FileEntry)
        ensures
            te(*r) == self.spec_layouts(),
    {
        &self.layouts
    }

    /// The includes tree, for driving a query.
    pub fn includes_tree(&self) -> (r: &FileEntry)
        ensures
            te(*r) == self.spec_includes(),
    {
        &self.includes
    }

    /// Loads the file at a tree address of the pages tree with the bytes
    /// read for it, per `load_at_post`; the other trees are untouched.
    pub fn load_page_at(&mut self, addr: &Vec<usize>, bytes: Vec<u8>) -> (r: Result<
        (),
        MetaError,
    >)
        ensures
            load_at_post(old(self).spec_pages(), final(self).spec_pages(), addr@, bytes@, r),
            final(self).spec_layouts() == old(self).spec_layouts(),
            final(self).spec_includes() == old(self).spec_includes(),
            final(self).spec_root() == old(self).spec_root(),
            final(self).spec_assets() == old(self).spec_assets(),
    {
        load_at(&mut self.pages, addr, bytes)
    }

    /// Loads the file at a tree address of the layouts tree, per
    /// `load_at_post`; the other trees are untouched.
    pub fn load_layout_at(&mut self, addr: &Vec<usize>, bytes: Vec<u8>) -> (r: Result<
        (),
        MetaError,
    >)
        ensures
            load_at_post(
                old(self).spec_layouts(),
                final(self).spec_layouts(),
                addr@,
                bytes@,
                r,
            ),
            final(self).spec_pages() == old(self).spec_pages(),
            final(self).spec_includes() == old(self).spec_includes(),
            final(self).spec_root() == old(self).spec_root(),
            final(self).spec_assets() == old(self).spec_assets(),
    {
        load_at(&mut self.layouts, addr, bytes)
    }

    /// Loads the file at a tree address of the includes tree, per
    /// `load_at_post`; the other trees are untouched.
    pub fn load_include_at(&mut self, addr: &Vec<usize>, bytes: Vec<u8>) -> (r: Result<
        (),
        MetaError,
    >)
        ensures
            load_at_post(
                old(self).spec_includes(),
                final(self).spec_includes(),
                addr@,
                bytes@,
                r,
            ),
            final(self).spec_pages() == old(self).spec_pages(),
            final(self).spec_layouts() == old(self).spec_layouts(),
            final(self).spec_root() == old(self).spec_root(),
            final(self).spec_assets() == old(self).spec_assets(),
    {
        load_at(&mut self.includes, addr, bytes)
    }

    /// Starts a query against the pages tree.
    pub fn page_or_value_iter(&self, path: &PathIter) -> (r: FileOrValueIter)
        ensures
            r.pending(self.spec_pages()) == tquery(self.spec_pages(), path.remaining()),
    {
        FileOrValueIter::new(path)
    }

    /// Starts a query against the layouts tree.
    pub fn layout_or_value_iter(&self, path: &PathIter) -> (r: FileOrValueIter)
        ensures
            r.pending(self.spec_layouts()) == tquery(self.spec_layouts(), path.remaining()),
    {
        FileOrValueIter::new(path)
    }

    /// Starts a query against the includes tree.
    pub fn include_or_value_iter(&self, path: &PathIter) -> (r: FileOrValueIter)
        ensures
            r.pending(self.spec_includes()) == tquery(self.spec_includes(), path.remaining()),
    {
        FileOrValueIter::new(path)
    }

    /// The first match of a path against the pages tree, when every file
    /// it touches is already loaded; where one is not, the query stops
    /// without a result.
    pub fn page_or_value(&self, path: &PathIter) -> (r: Option<FileOrValue>)
        ensures
            r is None ==> tquery(self.spec_pages(), path.remaining()).len() == 0 || !fully_loaded(
                self.spec_pages(),
            ),
            fully_loaded(self.spec_pages()) ==> match r {
                Some(x) => tquery(self.spec_pages(), path.remaining()).len() > 0 && fv_model(x)
                    == tquery(self.spec_pages(), path.remaining())[0],
                None => tquery(self.spec_pages(), path.remaining()).len() == 0,
            },
    {
        let mut it = FileOrValueIter::new(path);
        match it.next(&self.pages) {
            TreeStep::Match(x) => Some(x),
            _ => None,
        }
    }

    /// The first match of a path against the layouts tree, under the same
    /// terms as for pages.
    pub fn layout_or_value(&self, path: &PathIter) -> (r: Option<FileOrValue>)
        ensures
            r is None ==> tquery(self.spec_layouts(), path.remaining()).len() == 0 || !fully_loaded(
                self.spec_layouts(),
            ),
            fully_loaded(self.spec_layouts()) ==> match r {
                Some(x) => tquery(self.spec_layouts(), path.remaining()).len() > 0 && fv_model(
                    x,
                ) == tquery(self.spec_layouts(), path.remaining())[0],
                None => tquery(self.spec_layouts(), path.remaining()).len() == 0,
            },
    {
        let mut it = FileOrValueIter::new(path);
        match it.next(&self.layouts) {
            TreeStep::Match(x) => Some(x),
            _ => None,
        }
    }

    /// The first match of a path against the includes tree, under the
    /// same terms as for pages.
    pub fn include_or_value(&self, path: &PathIter) -> (r: Option<FileOrValue>)
        ensures
            r is None ==> tquery(self.spec_includes(), path.remaining()).len() == 0 || !fully_loaded(
                self.spec_includes(),
            ),
            fully_loaded(self.spec_includes()) ==> match r {
                Some(x) => tquery(self.spec_includes(), path.remaining()).len() > 0 && fv_model(
                    x,
                ) == tquery(self.spec_includes(), path.remaining())[0],
                None => tquery(self.spec_includes(), path.remaining()).len() == 0,
            },
    {
        let mut it = FileOrValueIter::new(path);
        match it.next(&self.includes) {
            TreeStep::Match(x) => Some(x),
            _ => None,
        }
    }
}

/// The tree with the node at `addr` replaced by `sub`; an address that
/// leads nowhere leaves the tree unchanged.
pub open spec fn tree_with(root: SpecEntry, addr: Seq<usize>, sub: SpecEntry) -> SpecEntry
    decreases addr.len(),
{
    if addr.len() == 0 {
        sub
    } else if root is Dir && 0 <= addr[0] < skid_count(root) {
        SpecEntry::Dir(
            root->Dir_0.update(
                addr[0] as int,
                (
                    root->Dir_0[addr[0] as int].0,
                    tree_with(skid_at(root, addr[0] as int), addr.drop_first(), sub),
                ),
            ),
        )
    } else {
        root
    }
}

/// What loading the file at `addr` with `bytes` owes: an address that
/// leads nowhere or to a directory fails and changes nothing; a loaded
/// file succeeds and changes nothing; an unloaded file succeeds or fails
/// exactly as the owed extraction outcome says, and on success exactly
/// the addressed node changes, carrying the owed metadata.
pub open spec fn load_at_post(
    oldm: SpecEntry,
    newm: SpecEntry,
    addr: Seq<usize>,
    bytes: Seq<u8>,
    r: Result<(), MetaError>,
) -> bool {
    &&& (r is Err ==> newm == oldm)
    &&& (entry_at(oldm, addr) is None ==> r is Err)
    &&& ((entry_at(oldm, addr) is Some && entry_at(oldm, addr)->0 is Dir) ==> r is Err)
    &&& ((entry_at(oldm, addr) is Some && entry_at(oldm, addr)->0 is File && entry_at(
        oldm,
        addr,
    )->0->File_1 is Some) ==> r is Ok && newm == oldm)
    &&& ((entry_at(oldm, addr) is Some && entry_at(oldm, addr)->0 is File && entry_at(
        oldm,
        addr,
    )->0->File_1 is None) ==> match crate::meta::extract_outcome(
        entry_at(oldm, addr)->0->File_0.format,
        bytes,
    ) {
        Ok(pair) => r is Ok && ({
            let m2o = entry_at(newm, addr);
            m2o is Some && m2o->0 is File && m2o->0->File_0 == entry_at(oldm, addr)->0->File_0
                && m2o->0->File_1 == Some(pair.0) && newm == tree_with(oldm, addr, m2o->0)
        }),
        Err(er) => r == Err::<(), MetaError>(er) && newm == oldm,
    })
}

/// Walks an address down a tree and hands the file there its bytes: the
/// one place a query's read triggers a write.  Exactly the addressed
/// node changes, and only from unloaded to loaded, with the owed
/// metadata; everything else — an address that leads nowhere, a
/// directory, a failed split — leaves the tree as it was.  Loading an
/// already-loaded file changes nothing.
pub fn load_at(e: &mut FileEntry, addr: &Vec<usize>, bytes: Vec<u8>) -> (r: Result<
    (),
    MetaError,
>)
    ensures
        load_at_post(te(*old(e)), te(*final(e)), addr@, bytes@, r),
{
    proof {
        assert(addr@.skip(0) =~= addr@);
    }
    load_at_from(e, addr, 0, bytes)
}

/// The recursive walk behind `load_at`, from position `i` of the address.
fn load_at_from(e: &mut FileEntry, addr: &Vec<usize>, i: usize, bytes: Vec<u8>) -> (r: Result<
    (),
    MetaError,
>)
    requires
        i <= addr@.len(),
    ensures
        r is Err ==> te(*final(e)) == te(*old(e)),
        entry_at(te(*old(e)), addr@.skip(i as int)) is None ==> r is Err,
        (entry_at(te(*old(e)), addr@.skip(i as int)) is Some && entry_at(
            te(*old(e)),
            addr@.skip(i as int),
        )->0 is Dir) ==> r is Err,
        (entry_at(te(*old(e)), addr@.skip(i as int)) is Some && entry_at(
            te(*old(e)),
            addr@.skip(i as int),
        )->0 is File && entry_at(te(*old(e)), addr@.skip(i as int))->0->File_1 is Some) ==> r
            is Ok && te(*final(e)) == te(*old(e)),
        (entry_at(te(*old(e)), addr@.skip(i as int)) is Some && entry_at(
            te(*old(e)),
            addr@.skip(i as int),
        )->0 is File && entry_at(te(*old(e)), addr@.skip(i as int))->0->File_1 is None)
            ==> match crate::meta::extract_outcome(
            entry_at(te(*old(e)), addr@.skip(i as int))->0->File_0.format,
            bytes@,
        ) {
            Ok(pair) => r is Ok && ({
                let m2o = entry_at(te(*final(e)), addr@.skip(i as int));
                m2o is Some && m2o->0 is File && m2o->0->File_0 == entry_at(
                    te(*old(e)),
                    addr@.skip(i as int),
                )->0->File_0 && m2o->0->File_1 == Some(pair.0) && te(*final(e)) == tree_with(
                    te(*old(e)),
                    addr@.skip(i as int),
                    m2o->0,
                )
            }),
            Err(er) => r == Err::<(), MetaError>(er) && te(*final(e)) == te(*old(e)),
        },
    decreases addr@.len() - i,
{
    let ghost sub_addr = addr@.skip(i as int);
    if i >= addr.len() {
        proof {
            assert(sub_addr =~= Seq::<usize>::empty());
        }
        match e {
            FileEntry::File(f) => {
                let r = f.load(bytes);
                proof {
                    assert(te(*e) is File);
                }
                r
            },
            _ => Err(MetaError::Parse),
        }
    } else {
        match e {
            FileEntry::Dir(entries) => {
                let ghost oldm = te(*old(e));
                let ix = addr[i];
                proof {
                    assert(sub_addr[0] == addr@[i as int]);
                    assert(sub_addr.drop_first() =~= addr@.skip(i + 1));
                    lemma_te_entries_index(*old(e), 0);
                }
                if ix >= entries.len() {
                    proof {
                        assert(skid_count(oldm) == entries@.len());
                        assert(entry_at(oldm, sub_addr) is None);
                    }
                    return Err(MetaError::Parse);
                }
                let ghost old_entries = entries@;
                let ghost old_child = entries@[ix as int].1;
                let sub = &mut entries[ix].1;
                let r = load_at_from(sub, addr, i + 1, bytes);
                proof {
                    assert(entries@ =~= old_entries.update(ix as int, (
                        old_entries[ix as int].0,
                        entries@[ix as int].1,
                    )));
                    lemma_te_entries_index(*e, 0);
                    assert(skid_count(oldm) == old_entries.len());
                    assert(skid_at(oldm, ix as int) == te(old_child));
                    assert(entry_at(oldm, sub_addr) == entry_at(
                        te(old_child),
                        addr@.skip(i + 1),
                    ));
                    let newm = te(*e);
                    assert(newm is Dir);
                    assert forall|j: int|
                        0 <= j < old_entries.len() && j != ix as int implies newm->Dir_0[j]
                        == oldm->Dir_0[j] by {
                        assert(entries@[j] == old_entries[j]);
                    }
                    assert(newm->Dir_0[ix as int] == (old_entries[ix as int].0@, te(
                        entries@[ix as int].1,
                    )));
                    if te(entries@[ix as int].1) == te(old_child) {
                        assert(newm->Dir_0 =~= oldm->Dir_0);
                        assert(newm == oldm);
                    }
                    if r is Ok && entry_at(oldm, sub_addr) is Some && entry_at(
                        oldm,
                        sub_addr,
                    )->0 is File && entry_at(oldm, sub_addr)->0->File_1 is None {
                        let m2 = entry_at(te(entries@[ix as int].1), addr@.skip(i + 1))->0;
                        assert(te(*e) == tree_with(oldm, sub_addr, m2)) by {
                            assert(te(entries@[ix as int].1) == tree_with(
                                te(old_child),
                                addr@.skip(i + 1),
                                m2,
                            ));
                            assert(tree_with(oldm, sub_addr, m2) == SpecEntry::Dir(
                                oldm->Dir_0.update(
                                    ix as int,
                                    (
                                        oldm->Dir_0[ix as int].0,
                                        tree_with(te(old_child), addr@.skip(i + 1), m2),
                                    ),
                                ),
                            ));
                            assert(newm->Dir_0 =~= oldm->Dir_0.update(ix as int, (
                                oldm->Dir_0[ix as int].0,
                                te(entries@[ix as int].1),
                            )));
                        }
                        assert(entry_at(te(*e), sub_addr) == entry_at(
                            te(entries@[ix as int].1),
                            addr@.skip(i + 1),
                        ));
                    }
                }
                r
            },
            _ => {
                proof {
                    assert(te(*e) is File);
                    assert(entry_at(te(*e), sub_addr) is None);
                }
                Err(MetaError::Parse)
            },
        }
    }
}

} // verus!
