//! The decisions between one object load and the next: walking every file
//! of a tree, looking one path up, following tags, and checking that an
//! object is of the kind a step needs.
use crate::error::Error;
use crate::bytes::{append_bytes, string_of};
use crate::fs::{path_components, validate_path};
use crate::git::objects::{
    lemma_tree_entry_at, parse_tag_target, tag_target, tree_entries, tree_entry_at, tree_find, tree_find_from,
    tree_listing, TreeEntry,
    TREE_MODE,
};
use crate::git::store::{hex_chars, ObjectKind};
use crate::git::status::entry_paths;
use crate::inventory::sorted_entries;
use crate::git::history::strictly_sorted;
use crate::output::SCAN_LIMIT;
use vstd::prelude::*;
use vstd::string::StringSliceAdditionalSpecFns;
use vstd::utf8::{decode_utf8, encode_utf8, valid_utf8};

verus! {

/// What is left of a tree walk, the next step last: a file to take, or a
/// subtree to load with its path and depth.
pub enum TreeStep {
    File(TreeEntry),
    Tree { oid: String, path: String, depth: usize },
}

/// Whether a step stands for a listed entry (path, mode, raw id) of a tree
/// whose entries lie at `depth`.
pub open spec fn step_holds(s: TreeStep, item: (Seq<u8>, nat, Seq<u8>), depth: nat) -> bool {
    match s {
        TreeStep::File(e) => item.1 != TREE_MODE && e.path@ == decode_utf8(item.0) && e.mode
            == item.1 && e.oid@ == hex_chars(item.2),
        TreeStep::Tree { oid, path, depth: d } => item.1 == TREE_MODE && path@ == decode_utf8(
            item.0,
        ) && oid@ == hex_chars(item.2) && d == depth,
    }
}

/// Takes the files at the end of the work until a subtree is next or the
/// work is done: the work and files then. `GIT_TREE_SCAN_LIMIT` when a file
/// is to be taken with the limit already reached, or the next subtree lies
/// deeper than 32 levels or comes with the limit reached.
pub open spec fn settle(work: Seq<TreeStep>, files: Seq<TreeEntry>) -> Result<
    (Seq<TreeStep>, Seq<TreeEntry>),
    Error,
>
    decreases work.len(),
{
    if work.len() == 0 {
        Ok((work, files))
    } else {
        match work.last() {
            TreeStep::File(e) => if files.len() >= SCAN_LIMIT {
                Err(Error::GitTreeScanLimit)
            } else {
                settle(work.drop_last(), files.push(e))
            },
            TreeStep::Tree { depth, .. } => if depth > 32 || files.len() >= SCAN_LIMIT {
                Err(Error::GitTreeScanLimit)
            } else {
                Ok((work, files))
            },
        }
    }
}

/// A walk over every file of a tree and its subtrees, depth first in
/// listing order. It hands out the id of each subtree to load and takes its
/// data back; the files come out in path order.
pub struct TreeWalk {
    work: Vec<TreeStep>,
    files: Vec<TreeEntry>,
    open: Option<(String, usize)>,
}

impl TreeWalk {
    /// The steps left, the next one last.
    pub closed spec fn work(&self) -> Seq<TreeStep> {
        self.work@
    }

    /// The files taken so far, in the order they were met.
    pub closed spec fn files(&self) -> Seq<TreeEntry> {
        self.files@
    }

    /// The path and depth of the subtree handed out and not yet fed back.
    pub closed spec fn open(&self) -> Option<(Seq<u8>, nat)> {
        match self.open {
            Some((p, d)) => Some((encode_utf8(p@), d as nat)),
            None => None,
        }
    }

    /// The path of the subtree handed out.
    pub closed spec fn open_path(&self) -> Seq<u8> {
        match self.open {
            Some((p, _)) => encode_utf8(p@),
            None => Seq::empty(),
        }
    }

    /// The depth of the subtree handed out.
    pub closed spec fn open_depth(&self) -> nat {
        match self.open {
            Some((_, d)) => d as nat,
            None => 0,
        }
    }

    /// A subtree handed out lies no deeper than 32 levels.
    pub closed spec fn wf(&self) -> bool {
        self.open matches Some((_, d)) ==> d <= 32
    }

    /// Starts at the root tree `root`.
    pub fn new(root: String) -> (res: TreeWalk)
        ensures
            res.wf(),
            res.open() is None,
            res.files() == Seq::<TreeEntry>::empty(),
            res.work().len() == 1,
            res.work()[0] matches TreeStep::Tree { oid, path, depth } && oid == root && path@
                == Seq::<char>::empty() && depth == 0,
    {
        let mut work: Vec<TreeStep> = Vec::new();
        work.push(TreeStep::Tree { oid: root, path: String::new(), depth: 0 });
        TreeWalk { work, files: Vec::new(), open: None }
    }

    /// Takes the files that come next and hands out the next subtree to
    /// load, or `None` when the walk is done.
    pub fn next(&mut self) -> (res: Result<Option<String>, Error>)
        requires
            old(self).wf(),
            old(self).open() is None,
        ensures
            final(self).wf(),
            match settle(old(self).work(), old(self).files()) {
                Err(e) => res == Err::<Option<String>, Error>(e),
                Ok((w, f)) => {
                    &&& final(self).files() == f
                    &&& w.len() == 0 ==> res == Ok::<Option<String>, Error>(None) && final(self).work() == w && final(self).open() is None
                    &&& w.len() > 0 ==> (w.last() matches TreeStep::Tree { oid, path, depth }
                        && res == Ok::<Option<String>, Error>(Some(oid)) && final(self).work()
                        == w.drop_last() && final(self).open() == Some((encode_utf8(path@), depth as nat)))
                },
            },
    {
        let ghost target = settle(self.work@, self.files@);
        loop
            invariant
                self.wf(),
                self.open is None,
                target == settle(self.work@, self.files@),
                target == settle(old(self).work(), old(self).files()),
            decreases self.work@.len(),
        {
            let ghost w = self.work@;
            match self.work.pop() {
                None => {
                    assert(w.len() == 0);
                    return Ok(None);
                },
                Some(step) => {
                    assert(step == w.last());
                    match step {
                        TreeStep::File(e) => {
                            if self.files.len() >= SCAN_LIMIT {
                                return Err(Error::GitTreeScanLimit);
                            }
                            self.files.push(e);
                        },
                        TreeStep::Tree { oid, path, depth } => {
                            if depth > 32 || self.files.len() >= SCAN_LIMIT {
                                return Err(Error::GitTreeScanLimit);
                            }
                            self.open = Some((path, depth));
                            return Ok(Some(oid));
                        },
                    }
                },
            }
        }
    }

    /// Takes the object loaded for the subtree handed out: it must be a
    /// tree, and its entries, in listing order, come next in the walk.
    pub fn feed(&mut self, kind: ObjectKind, data: &[u8]) -> (res: Result<(), Error>)
        requires
            old(self).wf(),
            old(self).open() is Some,
        ensures
            final(self).wf(),
            final(self).open() is None,
            final(self).files() == old(self).files(),
            kind != ObjectKind::Tree ==> res == Err::<(), Error>(Error::NotTree),
            kind == ObjectKind::Tree ==> match tree_listing(data@, old(self).open_path(), 0) {
                Err(e) => res == Err::<(), Error>(e),
                Ok(items) => {
                    &&& res is Ok
                    &&& final(self).work().len() == old(self).work().len() + items.len()
                    &&& final(self).work().subrange(0, old(self).work().len() as int) == old(self).work()
                    &&& forall|k: int|
                        0 <= k < items.len() ==> step_holds(
                            #[trigger] final(self).work()[old(self).work().len() + k],
                            items[items.len() - 1 - k],
                            old(self).open_depth() + 1,
                        )
                },
            },
    {
        let (prefix, depth) = match &self.open {
            Some((p, d)) => (p.clone(), *d),
            None => (String::new(), 0),
        };
        self.open = None;
        match kind {
            ObjectKind::Tree => {},
            _ => {
                return Err(Error::NotTree);
            },
        }
        let entries = tree_entries(data, prefix.as_str())?;
        let ghost items = tree_listing(data@, encode_utf8(prefix@), 0)->Ok_0;
        let ghost start = self.work@;
        let mut k: usize = entries.len();
        while k > 0
            invariant
                k <= entries@.len(),
                depth <= 32,
                self.open is None,
                self.files@ == old(self).files(),
                items.len() == entries@.len(),
                crate::git::objects::entries_hold(entries@, items),
                self.work@.len() == start.len() + (entries@.len() - k),
                self.work@.subrange(0, start.len() as int) == start,
                forall|j: int|
                    0 <= j < entries@.len() - k ==> step_holds(
                        #[trigger] self.work@[start.len() + j],
                        items[items.len() - 1 - j],
                        (depth + 1) as nat,
                    ),
            decreases k,
        {
            k = k - 1;
            let e = &entries[k];
            let ghost item = items[k as int];
            assert(entries@[k as int] == *e);
            assert(entries@[k as int].path@ == decode_utf8(item.0));
            assert(e.path@ == decode_utf8(item.0) && e.mode == item.1 && e.oid@ == hex_chars(item.2));
            let step = if e.mode == TREE_MODE {
                TreeStep::Tree { oid: e.oid.clone(), path: e.path.clone(), depth: depth + 1 }
            } else {
                TreeStep::File(TreeEntry { path: e.path.clone(), mode: e.mode, oid: e.oid.clone() })
            };
            assert(step_holds(step, item, (depth + 1) as nat));
            let ghost before = self.work@;
            self.work.push(step);
            proof {
                assert(self.work@.subrange(0, start.len() as int) =~= before.subrange(
                    0,
                    start.len() as int,
                ));
                assert forall|j: int| 0 <= j < entries@.len() - k implies step_holds(
                    #[trigger] self.work@[start.len() + j],
                    items[items.len() - 1 - j],
                    (depth + 1) as nat,
                ) by {
                    if j < entries@.len() - k - 1 {
                        assert(self.work@[start.len() + j] == before[start.len() + j]);
                    }
                }
            }
        }
        Ok(())
    }

    /// The files taken, in path order, one per path.
    pub fn finish(self) -> (res: Vec<TreeEntry>)
        ensures
            strictly_sorted(entry_paths(res@)),
            forall|p: Seq<u8>| #[trigger] entry_paths(res@).contains(p) <==> entry_paths(
                self.files(),
            ).contains(p),
            forall|k: int| 0 <= k < res@.len() ==> self.files().contains(#[trigger] res@[k]),
    {
        sorted_entries(self.files)
    }
}


/// Path components joined by `/`.
pub open spec fn slash_joined(parts: Seq<Seq<u8>>) -> Seq<u8>
    decreases parts.len(),
{
    if parts.len() == 0 {
        seq![]
    } else if parts.len() == 1 {
        parts[0]
    } else {
        slash_joined(parts.drop_last()) + seq![47u8] + parts.last()
    }
}

/// The path of the entry `name` of a tree whose entries lie under `prefix`.
pub open spec fn child_path(prefix: Seq<u8>, name: Seq<u8>) -> Seq<u8> {
    if prefix.len() == 0 {
        name
    } else {
        prefix + seq![47u8] + name
    }
}

/// The mode and raw id of the first listed entry at `path`, if any.
pub open spec fn first_named(items: Seq<(Seq<u8>, nat, Seq<u8>)>, path: Seq<u8>) -> Option<
    (nat, Seq<u8>),
>
    decreases items.len(),
{
    if items.len() == 0 {
        None
    } else if items[0].0 == path {
        Some((items[0].1, items[0].2))
    } else {
        first_named(items.drop_first(), path)
    }
}

/// No two listed entries share a path.
pub open spec fn paths_unique(items: Seq<(Seq<u8>, nat, Seq<u8>)>) -> bool {
    forall|i: int, j: int|
        0 <= i < items.len() && 0 <= j < items.len() && #[trigger] items[i].0 == #[trigger] items[j].0
            ==> i == j
}

/// `first_named` finds a listed entry, and finds the one entry at a path
/// that only one entry has.
proof fn lemma_first_named(items: Seq<(Seq<u8>, nat, Seq<u8>)>, path: Seq<u8>)
    ensures
        first_named(items, path) matches Some((m, raw)) ==> exists|k: int|
            0 <= k < items.len() && #[trigger] items[k] == (path, m, raw),
        paths_unique(items) ==> forall|k: int|
            0 <= k < items.len() && (#[trigger] items[k]).0 == path ==> first_named(items, path) == Some(
                (items[k].1, items[k].2),
            ),
        (forall|k: int| 0 <= k < items.len() ==> (#[trigger] items[k]).0 != path) ==> first_named(
            items,
            path,
        ) is None,
    decreases items.len(),
{
    if items.len() > 0 {
        let rest = items.drop_first();
        lemma_first_named(rest, path);
        if items[0].0 != path {
            if let Some((m, raw)) = first_named(rest, path) {
                let k = choose|k: int| 0 <= k < rest.len() && #[trigger] rest[k] == (path, m, raw);
                assert(items[k + 1] == (path, m, raw));
            }
            if paths_unique(items) {
                assert(paths_unique(rest)) by {
                    assert forall|i: int, j: int|
                        0 <= i < rest.len() && 0 <= j < rest.len() && #[trigger] rest[i].0
                            == #[trigger] rest[j].0 implies i == j by {
                        assert(items[i + 1].0 == items[j + 1].0);
                    }
                }
                assert forall|k: int|
                    0 <= k < items.len() && (#[trigger] items[k]).0 == path implies first_named(
                        items,
                        path,
                    ) == Some((items[k].1, items[k].2)) by {
                    assert(k > 0);
                    assert(rest[k - 1] == items[k]);
                }
            }
            if forall|k: int| 0 <= k < items.len() ==> (#[trigger] items[k]).0 != path {
                assert forall|k: int| 0 <= k < rest.len() implies (#[trigger] rest[k]).0 != path by {
                    assert(rest[k] == items[k + 1]);
                }
            }
        } else {
            assert(items[0] == (path, items[0].1, items[0].2));
            if paths_unique(items) {
                assert forall|k: int|
                    0 <= k < items.len() && (#[trigger] items[k]).0 == path implies first_named(
                        items,
                        path,
                    ) == Some((items[k].1, items[k].2)) by {
                    assert(items[0].0 == items[k].0);
                }
            }
        }
    }
}

/// Looking a name up in a tree's data finds the first entry that the
/// tree's full listing holds at that name's path.
proof fn lemma_find_is_listed(d: Seq<u8>, prefix: Seq<u8>, q: int, name: Seq<u8>)
    requires
        0 <= q,
        tree_listing(d, prefix, q) is Ok,
    ensures
        tree_find_from(d, q, name) == Ok::<Option<(nat, Seq<u8>)>, Error>(
            first_named(tree_listing(d, prefix, q)->Ok_0, child_path(prefix, name)),
        ),
    decreases d.len() - q,
{
    if q < d.len() {
        lemma_tree_entry_at(d, q);
        let (m, ns, nul) = tree_entry_at(d, q)->Ok_0;
        let entry = d.subrange(ns, nul);
        lemma_find_is_listed(d, prefix, nul + 21, name);
        let items = tree_listing(d, prefix, q)->Ok_0;
        let rest = tree_listing(d, prefix, nul + 21)->Ok_0;
        assert(items == seq![(child_path(prefix, entry), m, d.subrange(nul + 1, nul + 21))] + rest);
        assert(items.drop_first() =~= rest);
        if entry != name && prefix.len() > 0 {
            let a = prefix + seq![47u8] + entry;
            let b = prefix + seq![47u8] + name;
            if a == b {
                assert(a.subrange(prefix.len() + 1int, a.len() as int) =~= entry);
                assert(b.subrange(prefix.len() + 1int, b.len() as int) =~= name);
            }
        }
    }
}

/// The path of the first `level` components of a path.
proof fn lemma_slash_joined_step(names: Seq<Seq<u8>>, level: int)
    requires
        0 <= level < names.len(),
        forall|k: int| 0 <= k < names.len() ==> (#[trigger] names[k]).len() > 0,
    ensures
        slash_joined(names.take(level + 1int)) == child_path(slash_joined(names.take(level)), names[level as int]),
{
    let t = names.take(level + 1int);
    let s = names.take(level);
    assert(t.drop_last() =~= s);
    assert(t.last() == names[level as int]);
    if level == 0 {
        assert(slash_joined(s) =~= Seq::<u8>::empty());
        assert(slash_joined(t) == t[0]);
    } else if level == 1 {
        assert(slash_joined(s) == s[0]);
        assert(s[0] == names[0]);
    } else {
        assert(slash_joined(s) == slash_joined(s.drop_last()) + seq![47u8] + s.last());
    }
}

/// What a lookup of the components `names` from `level` on finds from tree
/// `id`, for a store that gives `load(x)` for object `x`: the mode and id
/// of the entry the whole path names, nothing, or why it fails, each
/// level's tree searched by name for that level's component.
pub open spec fn route_found(
    load: spec_fn(Seq<char>) -> (ObjectKind, Seq<u8>),
    id: Seq<char>,
    names: Seq<Seq<u8>>,
    level: nat,
) -> Result<Option<(nat, Seq<char>)>, Error>
    decreases names.len() - level,
{
    if level >= names.len() {
        Ok(None)
    } else if load(id).0 != ObjectKind::Tree {
        Err(Error::NotTree)
    } else {
        match tree_find_from(load(id).1, 0, names[level as int]) {
            Err(e) => Err(e),
            Ok(None) => Ok(None),
            Ok(Some((m, raw))) => if level + 1 == names.len() {
                Ok(Some((m, hex_chars(raw))))
            } else if m != TREE_MODE {
                Err(Error::GitSymlinkOrSubmoduleUnsupported)
            } else {
                route_found(load, hex_chars(raw), names, level + 1)
            },
        }
    }
}

/// Whether the full tree `id`, walked as a tree walk walks it, holds a file
/// entry at the path whose components from `level` on are those of `names`,
/// with mode `m` and id `oid`.
pub open spec fn tree_holds(
    load: spec_fn(Seq<char>) -> (ObjectKind, Seq<u8>),
    id: Seq<char>,
    names: Seq<Seq<u8>>,
    level: nat,
    m: nat,
    oid: Seq<char>,
) -> bool
    decreases names.len() - level,
{
    if level >= names.len() || load(id).0 != ObjectKind::Tree {
        false
    } else {
        match tree_listing(load(id).1, slash_joined(names.take(level as int)), 0) {
            Err(_) => false,
            Ok(items) => exists|k: int|
                0 <= k < items.len() && #[trigger] items[k].0 == slash_joined(
                    names.take(level + 1int),
                ) && if level + 1 == names.len() {
                    items[k].1 != TREE_MODE && items[k].1 == m && hex_chars(items[k].2) == oid
                } else {
                    items[k].1 == TREE_MODE && tree_holds(load, hex_chars(items[k].2), names, level + 1, m, oid)
                },
        }
    }
}

/// Every tree a lookup of `names` passes through is a tree whose listing
/// is valid and holds each path once.
pub open spec fn route_listed(
    load: spec_fn(Seq<char>) -> (ObjectKind, Seq<u8>),
    id: Seq<char>,
    names: Seq<Seq<u8>>,
    level: nat,
) -> bool
    decreases names.len() - level,
{
    if level >= names.len() {
        true
    } else if load(id).0 != ObjectKind::Tree {
        false
    } else {
        match tree_listing(load(id).1, slash_joined(names.take(level as int)), 0) {
            Err(_) => false,
            Ok(items) => paths_unique(items) && match first_named(items, slash_joined(names.take(level + 1int))) {
                Some((m, raw)) => (m == TREE_MODE && level + 1 < names.len()) ==> route_listed(
                    load,
                    hex_chars(raw),
                    names,
                    level + 1,
                ),
                None => true,
            },
        }
    }
}

/// A path lookup finds what the full tree holds: where every tree on the
/// way is a valid tree that names each entry once, the lookup finds a file
/// with mode `m` and id `oid` exactly when the full tree, walked through
/// all its subtrees, holds that file at that path. Only the trees on the
/// path's route are read.
pub proof fn lemma_lookup_is_tree_entry(
    load: spec_fn(Seq<char>) -> (ObjectKind, Seq<u8>),
    id: Seq<char>,
    names: Seq<Seq<u8>>,
    level: nat,
    m: nat,
    oid: Seq<char>,
)
    requires
        level < names.len(),
        forall|k: int| 0 <= k < names.len() ==> (#[trigger] names[k]).len() > 0,
        route_listed(load, id, names, level),
    ensures
        tree_holds(load, id, names, level, m, oid) <==> (route_found(load, id, names, level) == Ok::<
            Option<(nat, Seq<char>)>,
            Error,
        >(Some((m, oid))) && m != TREE_MODE),
    decreases names.len() - level,
{
    let d = load(id).1;
    let prefix = slash_joined(names.take(level as int));
    let items = tree_listing(d, prefix, 0)->Ok_0;
    let path = slash_joined(names.take(level + 1int));
    lemma_slash_joined_step(names, level as int);
    lemma_find_is_listed(d, prefix, 0, names[level as int]);
    lemma_first_named(items, path);
    match first_named(items, path) {
        None => {
            if tree_holds(load, id, names, level, m, oid) {
                let k = choose|k: int|
                    0 <= k < items.len() && #[trigger] items[k].0 == path && if level + 1 == names.len() {
                        items[k].1 != TREE_MODE && items[k].1 == m && hex_chars(items[k].2) == oid
                    } else {
                        items[k].1 == TREE_MODE && tree_holds(load, hex_chars(items[k].2), names, level + 1, m, oid)
                    };
                assert(items[k].0 == path);
            }
        },
        Some((fm, raw)) => {
            let j = choose|j: int| 0 <= j < items.len() && #[trigger] items[j] == (path, fm, raw);
            assert(items[j].0 == path);
            if tree_holds(load, id, names, level, m, oid) {
                let k = choose|k: int|
                    0 <= k < items.len() && #[trigger] items[k].0 == path && if level + 1 == names.len() {
                        items[k].1 != TREE_MODE && items[k].1 == m && hex_chars(items[k].2) == oid
                    } else {
                        items[k].1 == TREE_MODE && tree_holds(load, hex_chars(items[k].2), names, level + 1, m, oid)
                    };
                assert(items[k].0 == items[j].0);
                assert(k == j);
            }
            if level + 1 < names.len() && fm == TREE_MODE {
                lemma_lookup_is_tree_entry(load, hex_chars(raw), names, level + 1, m, oid);
                if route_found(load, id, names, level) == Ok::<Option<(nat, Seq<char>)>, Error>(Some((m, oid)))
                    && m != TREE_MODE {
                    assert(items[j].0 == path);
                    assert(tree_holds(load, id, names, level, m, oid));
                }
            } else if level + 1 == names.len() {
                if route_found(load, id, names, level) == Ok::<Option<(nat, Seq<char>)>, Error>(Some((m, oid)))
                    && m != TREE_MODE {
                    assert(items[j].0 == path);
                }
            }
        },
    }
}

/// What one level of a path lookup found: the entry the whole path names,
/// no entry of that name, or the subtree to load for the next level.
pub enum Found {
    Entry(TreeEntry),
    Absent,
    Descend(String),
}

/// The lookup of one path in a tree, one level per tree loaded, without
/// reading any other subtree.
pub struct PathLookup {
    parts: Vec<String>,
    level: usize,
}

impl PathLookup {
    /// The path's components.
    pub closed spec fn parts(&self) -> Seq<Seq<char>> {
        self.parts@.map_values(|s: String| s@)
    }

    /// The components' bytes.
    pub open spec fn parts_bytes(&self) -> Seq<Seq<u8>> {
        self.parts().map_values(|c: Seq<char>| encode_utf8(c))
    }

    /// The component that the next tree fed is searched for.
    pub closed spec fn level(&self) -> nat {
        self.level as nat
    }

    /// One to 32 components, and the level one of them.
    pub closed spec fn wf(&self) -> bool {
        0 < self.parts@.len() <= 32 && self.level < self.parts@.len()
    }

    /// Starts the lookup of a path: one that `validate_path` accepts, of
    /// one to 32 components, else `INVALID_GIT_FILE_PATH`.
    pub fn new(path: &str) -> (res: Result<PathLookup, Error>)
        ensures
            match path_components(path.spec_bytes(), false) {
                Err(e) => res == Err::<PathLookup, Error>(e),
                Ok(ps) => if ps.len() == 0 || ps.len() > 32 {
                    res == Err::<PathLookup, Error>(Error::InvalidGitFilePath)
                } else {
                    res matches Ok(l) && l.wf() && l.level() == 0 && l.parts().len() == ps.len()
                        && forall|k: int| 0 <= k < ps.len() ==> #[trigger] l.parts()[k] == decode_utf8(ps[k])
                },
            },
    {
        let parts = validate_path(path, false)?;
        if parts.len() == 0 || parts.len() > 32 {
            return Err(Error::InvalidGitFilePath);
        }
        Ok(PathLookup { parts, level: 0 })
    }

    fn joined_path(&self) -> (res: String)
        requires
            self.wf(),
        ensures
            encode_utf8(res@) == slash_joined(self.parts_bytes()),
    {
        let ghost pb = self.parts_bytes();
        let mut out: Vec<u8> = Vec::new();
        let mut k: usize = 0;
        while k < self.parts.len()
            invariant
                k <= self.parts@.len(),
                pb == self.parts_bytes(),
                pb.len() == self.parts@.len(),
                out@ == slash_joined(pb.subrange(0, k as int)),
                valid_utf8(out@),
            decreases self.parts@.len() - k,
        {
            let piece = self.parts[k].as_str().as_bytes();
            assert(piece@ == pb[k as int]);
            proof {
                vstd::utf8::encode_utf8_valid_utf8(self.parts@[k as int]@);
            }
            let ghost before = out@;
            if k > 0 {
                out.push(47u8);
                proof {
                    crate::bytes::lemma_ascii_utf8(seq![47u8]);
                    vstd::utf8::valid_utf8_concat(before, seq![47u8]);
                    assert(out@ =~= before + seq![47u8]);
                }
            }
            let ghost mid = out@;
            append_bytes(&mut out, piece);
            proof {
                vstd::utf8::valid_utf8_concat(mid, piece@);
                let s = pb.subrange(0, k + 1);
                assert(s.drop_last() =~= pb.subrange(0, k as int));
                if k == 0 {
                    assert(out@ =~= s[0]);
                } else {
                    assert(out@ =~= slash_joined(s.drop_last()) + seq![47u8] + s.last());
                }
            }
            k = k + 1;
        }
        assert(pb.subrange(0, k as int) =~= pb);
        let res = string_of(out.as_slice());
        proof {
            vstd::utf8::decode_utf8_encode_utf8(out@);
        }
        res
    }

    /// Takes the tree loaded for the current level and looks its component
    /// up in it.
    pub fn feed(&mut self, kind: ObjectKind, data: &[u8]) -> (res: Result<Found, Error>)
        requires
            old(self).wf(),
        ensures
            final(self).parts() == old(self).parts(),
            kind != ObjectKind::Tree ==> res == Err::<Found, Error>(Error::NotTree),
            kind == ObjectKind::Tree ==> match tree_find_from(
                data@,
                0,
                encode_utf8(old(self).parts()[old(self).level() as int]),
            ) {
                Err(e) => res == Err::<Found, Error>(e),
                Ok(None) => res matches Ok(Found::Absent),
                Ok(Some((m, raw))) => if old(self).level() + 1 == old(self).parts().len() {
                    res matches Ok(Found::Entry(e)) && encode_utf8(e.path@) == slash_joined(
                        old(self).parts_bytes(),
                    ) && e.mode == m && e.oid@ == hex_chars(raw)
                } else if m != TREE_MODE {
                    res == Err::<Found, Error>(Error::GitSymlinkOrSubmoduleUnsupported)
                } else {
                    res matches Ok(Found::Descend(id)) && id@ == hex_chars(raw) && final(self).level()
                        == old(self).level() + 1 && final(self).wf()
                },
            },
            forall|load: spec_fn(Seq<char>) -> (ObjectKind, Seq<u8>), id: Seq<char>|
                #[trigger] load(id) == (kind, data@) ==> match res {
                    Ok(Found::Entry(e)) => route_found(load, id, old(self).parts_bytes(), old(self).level())
                        == Ok::<Option<(nat, Seq<char>)>, Error>(Some((e.mode as nat, e.oid@))),
                    Ok(Found::Absent) => route_found(load, id, old(self).parts_bytes(), old(self).level())
                        == Ok::<Option<(nat, Seq<char>)>, Error>(None),
                    Ok(Found::Descend(next)) => route_found(
                        load,
                        id,
                        old(self).parts_bytes(),
                        old(self).level(),
                    ) == route_found(load, next@, old(self).parts_bytes(), old(self).level() + 1),
                    Err(x) => route_found(load, id, old(self).parts_bytes(), old(self).level()) == Err::<
                        Option<(nat, Seq<char>)>,
                        Error,
                    >(x),
                },
    {
        match kind {
            ObjectKind::Tree => {},
            _ => {
                return Err(Error::NotTree);
            },
        }
        let name = self.parts[self.level].as_str().as_bytes();
        match tree_find(data, name)? {
            None => Ok(Found::Absent),
            Some((mode, oid)) => {
                if self.level + 1 == self.parts.len() {
                    let path = self.joined_path();
                    Ok(Found::Entry(TreeEntry { path, mode, oid }))
                } else if mode != TREE_MODE {
                    Err(Error::GitSymlinkOrSubmoduleUnsupported)
                } else {
                    self.level = self.level + 1;
                    Ok(Found::Descend(oid))
                }
            },
        }
    }
}

/// Where following tags from `id` ends, for a store that gives `load(x)`
/// for object `x`: the first object that is no tag, or the refusal of a
/// tag that cannot be read or of a sixteenth tag, `loads` tags having been
/// followed already.
pub open spec fn peeled(
    load: spec_fn(Seq<char>) -> (ObjectKind, Seq<u8>),
    id: Seq<char>,
    loads: nat,
) -> Result<Seq<char>, Error>
    decreases 16 - loads,
{
    let (kind, data) = load(id);
    if kind != ObjectKind::Tag {
        Ok(id)
    } else {
        match tag_target(data) {
            Err(e) => Err(e),
            Ok(t) => if loads + 1 >= 16 {
                Err(Error::TagDepthLimit)
            } else {
                peeled(load, decode_utf8(t), loads + 1)
            },
        }
    }
}

/// Peeling is idempotent: what peeling reaches is no tag, and peeling it
/// again, from any count of tags followed, reaches it at once.
pub proof fn lemma_peel_idempotent(
    load: spec_fn(Seq<char>) -> (ObjectKind, Seq<u8>),
    id: Seq<char>,
    loads: nat,
    again: nat,
)
    requires
        peeled(load, id, loads) is Ok,
    ensures
        load(peeled(load, id, loads)->Ok_0).0 != ObjectKind::Tag,
        peeled(load, peeled(load, id, loads)->Ok_0, again) == peeled(load, id, loads),
    decreases 16 - loads,
{
    let (kind, data) = load(id);
    if kind == ObjectKind::Tag {
        if let Ok(t) = tag_target(data) {
            if loads + 1 < 16 {
                lemma_peel_idempotent(load, decode_utf8(t), loads + 1, again);
            }
        }
    }
}

/// The following of tags from an id to the object they lead to, sixteen
/// loads at most.
pub struct Peel {
    id: String,
    loads: usize,
}

impl Peel {
    /// The id to load next, or the one reached.
    pub closed spec fn id(&self) -> Seq<char> {
        self.id@
    }

    /// The tags followed so far.
    pub closed spec fn loads(&self) -> nat {
        self.loads as nat
    }

    /// Fewer than sixteen tags followed.
    pub closed spec fn wf(&self) -> bool {
        self.loads < 16
    }

    /// Starts at `id`.
    pub fn new(id: String) -> (res: Peel)
        ensures
            res.wf(),
            res.id() == id@,
            res.loads() == 0,
    {
        Peel { id, loads: 0 }
    }

    /// The id to load next.
    pub fn current(&self) -> (res: &str)
        ensures
            res@ == self.id(),
    {
        self.id.as_str()
    }

    /// Takes the object loaded for the current id: `true` when it is no
    /// tag, so the current id is the one reached; otherwise the tag's
    /// target is next, and `TAG_DEPTH_LIMIT` refuses a sixteenth tag.
    pub fn feed(&mut self, kind: ObjectKind, data: &[u8]) -> (res: Result<bool, Error>)
        requires
            old(self).wf(),
        ensures
            kind != ObjectKind::Tag ==> res == Ok::<bool, Error>(true) && final(self).id() == old(self).id() && final(self).wf(),
            kind == ObjectKind::Tag ==> match tag_target(data@) {
                Err(e) => res == Err::<bool, Error>(e),
                Ok(t) => if old(self).loads() + 1 >= 16 {
                    res == Err::<bool, Error>(Error::TagDepthLimit)
                } else {
                    res == Ok::<bool, Error>(false) && final(self).id() == decode_utf8(t) && final(self).loads() == old(self).loads() + 1 && final(self).wf()
                },
            },
            forall|load: spec_fn(Seq<char>) -> (ObjectKind, Seq<u8>)|
                #[trigger] load(old(self).id()) == (kind, data@) ==> match res {
                    Ok(true) => peeled(load, old(self).id(), old(self).loads()) == Ok::<Seq<char>, Error>(
                        old(self).id(),
                    ),
                    Ok(false) => peeled(load, old(self).id(), old(self).loads()) == peeled(
                        load,
                        final(self).id(),
                        final(self).loads(),
                    ),
                    Err(e) => peeled(load, old(self).id(), old(self).loads()) == Err::<Seq<char>, Error>(e),
                },
    {
        match kind {
            ObjectKind::Tag => {},
            _ => {
                return Ok(true);
            },
        }
        let target = parse_tag_target(data)?;
        if self.loads + 1 >= 16 {
            return Err(Error::TagDepthLimit);
        }
        self.id = target;
        self.loads = self.loads + 1;
        Ok(false)
    }

    /// The id reached.
    pub fn finish(self) -> (res: String)
        ensures
            res@ == self.id(),
    {
        self.id
    }
}

/// The refusal of an object of another kind than a step needs.
pub open spec fn wrong_kind(want: ObjectKind) -> Error {
    match want {
        ObjectKind::Tree => Error::NotTree,
        ObjectKind::Blob => Error::NotBlob,
        ObjectKind::Commit => Error::NotCommit,
        ObjectKind::Tag => Error::InvalidTag,
    }
}

/// Accepts an object of the kind wanted, and refuses any other.
pub fn expect_kind(kind: ObjectKind, want: ObjectKind) -> (res: Result<(), Error>)
    ensures
        res is Ok <==> kind == want,
        res is Err ==> res == Err::<(), Error>(wrong_kind(want)),
{
    let same = match (kind, want) {
        (ObjectKind::Tree, ObjectKind::Tree) => true,
        (ObjectKind::Blob, ObjectKind::Blob) => true,
        (ObjectKind::Commit, ObjectKind::Commit) => true,
        (ObjectKind::Tag, ObjectKind::Tag) => true,
        _ => false,
    };
    if same {
        Ok(())
    } else {
        Err(
            match want {
                ObjectKind::Tree => Error::NotTree,
                ObjectKind::Blob => Error::NotBlob,
                ObjectKind::Commit => Error::NotCommit,
                ObjectKind::Tag => Error::InvalidTag,
            },
        )
    }
}

/// A regular file's mode: `100644`, or `100755` when executable.
pub open spec fn regular_mode(m: u32) -> bool {
    m == 33188 || m == 33261
}

/// Accepts an entry whose blob may be read as text: its path one that
/// `validate_path` accepts, and its mode a regular file's.
pub fn check_blob(entry: &TreeEntry) -> (res: Result<(), Error>)
    ensures
        match path_components(encode_utf8(entry.path@), false) {
            Err(e) => res == Err::<(), Error>(e),
            Ok(_) => if regular_mode(entry.mode) {
                res is Ok
            } else {
                res == Err::<(), Error>(Error::GitSymlinkOrSubmoduleUnsupported)
            },
        },
{
    validate_path(entry.path.as_str(), false)?;
    if entry.mode == 33188 || entry.mode == 33261 {
        Ok(())
    } else {
        Err(Error::GitSymlinkOrSubmoduleUnsupported)
    }
}

} // verus!
