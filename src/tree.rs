//! Tree objects: entries, their canonical order, and their binary records.

use vstd::prelude::*;
use crate::bytes::{append_bytes, copy_range};
use crate::codec::{ObjectId, ObjectKind, StoredObject, address_of, encoded, make_object};
use crate::order::{lex_lt, name_less, lemma_lex_total, lemma_lex_transitive};

verus! {

/// The mode of a tree entry.
#[derive(Clone, Copy, Debug, PartialEq, Eq, Structural)]
pub enum EntryMode {
    /// A regular file, `100644`.
    Regular,
    /// A file with an execute permission bit, `100755`.
    Executable,
    /// A subdirectory, `40000`.
    Directory,
}

/// The decimal ASCII text of a mode.
pub open spec fn mode_text(m: EntryMode) -> Seq<u8> {
    match m {
        EntryMode::Regular => seq![49u8, 48u8, 48u8, 54u8, 52u8, 52u8],
        EntryMode::Executable => seq![49u8, 48u8, 48u8, 55u8, 53u8, 53u8],
        EntryMode::Directory => seq![52u8, 48u8, 48u8, 48u8, 48u8],
    }
}

/// One entry of a tree: a mode, a single path segment, and the address of
/// the blob or tree it refers to.
pub struct TreeEntry {
    pub mode: EntryMode,
    pub name: Vec<u8>,
    pub id: ObjectId,
}

/// The binary record of an entry: `"<mode> <name>\0"` and twenty raw bytes.
pub open spec fn record(e: TreeEntry) -> Seq<u8> {
    mode_text(e.mode) + seq![32u8] + e.name@ + seq![0u8] + e.id@
}

/// The records of the entries, one after the other.
pub open spec fn serialized(es: Seq<TreeEntry>) -> Seq<u8>
    decreases es.len(),
{
    if es.len() == 0 {
        Seq::empty()
    } else {
        serialized(es.drop_last()) + record(es.last())
    }
}

/// Entries in strictly ascending byte-wise order of name.
pub open spec fn sorted_by_name(es: Seq<TreeEntry>) -> bool {
    forall|i: int, j: int| 0 <= i < j < es.len() ==> lex_lt(#[trigger] es[i].name@, #[trigger] es[j].name@)
}

/// No two entries share a name.
pub open spec fn distinct_names(es: Seq<TreeEntry>) -> bool {
    forall|i: int, j: int|
        0 <= i < es.len() && 0 <= j < es.len() && i != j ==> #[trigger] es[i].name@ != #[trigger] es[j].name@
}

/// The address of the tree with no entries.
pub open spec fn empty_tree_address() -> Seq<u8> {
    address_of(ObjectKind::Tree, Seq::empty())
}

fn push_mode(out: &mut Vec<u8>, m: EntryMode)
    ensures
        final(out)@ == old(out)@ + mode_text(m),
{
    match m {
        EntryMode::Regular => {
            out.push(49);
            out.push(48);
            out.push(48);
            out.push(54);
            out.push(52);
            out.push(52);
        },
        EntryMode::Executable => {
            out.push(49);
            out.push(48);
            out.push(48);
            out.push(55);
            out.push(53);
            out.push(53);
        },
        EntryMode::Directory => {
            out.push(52);
            out.push(48);
            out.push(48);
            out.push(48);
            out.push(48);
        },
    }
    assert(final(out)@ =~= old(out)@ + mode_text(m));
}

/// The payload of a tree with these entries, in the order given.
pub fn serialize_entries(entries: &Vec<TreeEntry>) -> (r: Vec<u8>)
    ensures
        r@ == serialized(entries@),
{
    let mut out: Vec<u8> = Vec::new();
    let mut i: usize = 0;
    while i < entries.len()
        invariant
            i <= entries@.len(),
            out@ == serialized(entries@.subrange(0, i as int)),
        decreases entries@.len() - i,
    {
        let e = &entries[i];
        push_mode(&mut out, e.mode);
        out.push(32);
        append_bytes(&mut out, e.name.as_slice());
        out.push(0);
        append_bytes(&mut out, e.id.as_bytes());
        proof {
            let s = entries@.subrange(0, i + 1);
            assert(s.drop_last() =~= entries@.subrange(0, i as int));
            assert(out@ =~= serialized(s));
        }
        i = i + 1;
    }
    assert(entries@.subrange(0, entries@.len() as int) =~= entries@);
    out
}

/// Puts entries with distinct names into ascending byte-wise order of name.
pub fn sort_entries(entries: Vec<TreeEntry>) -> (r: Vec<TreeEntry>)
    requires
        distinct_names(entries@),
    ensures
        sorted_by_name(r@),
        r@.len() == entries@.len(),
        forall|e: TreeEntry| entries@.contains(e) <==> r@.contains(e),
{
    let ghost orig = entries@;
    let mut rest = entries;
    let mut out: Vec<TreeEntry> = Vec::new();
    while rest.len() > 0
        invariant
            distinct_names(orig),
            rest@.len() + out@.len() == orig.len(),
            rest@ == orig.subrange(0, rest@.len() as int),
            sorted_by_name(out@),
            forall|e: TreeEntry| orig.subrange(rest@.len() as int, orig.len() as int).contains(e) <==> out@.contains(e),
        decreases rest@.len(),
    {
        let ghost n: int = rest@.len() - 1;
        let e = rest.pop().unwrap();
        assert(e == orig[n]);
        assert(rest@ =~= orig.subrange(0, n));
        let mut p: usize = 0;
        let mut searching = true;
        while searching && p < out.len()
            invariant
                distinct_names(orig),
                n == rest@.len(),
                e == orig[n],
                rest@.len() + out@.len() + 1 == orig.len(),
                rest@ == orig.subrange(0, n),
                sorted_by_name(out@),
                forall|x: TreeEntry| orig.subrange(n + 1, orig.len() as int).contains(x) <==> out@.contains(x),
                p <= out@.len(),
                forall|k: int| 0 <= k < p ==> lex_lt(#[trigger] out@[k].name@, e.name@),
                !searching ==> p < out@.len() && !lex_lt(out@[p as int].name@, e.name@),
            decreases out@.len() - p + (if searching { 1int } else { 0int }),
        {
            if name_less(out[p].name.as_slice(), e.name.as_slice()) {
                p = p + 1;
            } else {
                searching = false;
            }
        }
        let ghost old_out = out@;
        proof {
            // e's name differs from every name already placed
            assert forall|k: int| 0 <= k < old_out.len() implies #[trigger] old_out[k].name@ != e.name@ by {
                assert(old_out.contains(old_out[k]));
                let tail = orig.subrange(n + 1, orig.len() as int);
                assert(tail.contains(old_out[k]));
                let j = choose|j: int| 0 <= j < tail.len() && tail[j] == old_out[k];
                assert(orig[n + 1 + j] == old_out[k]);
            }
            if p < old_out.len() {
                lemma_lex_total(e.name@, old_out[p as int].name@);
            }
        }
        out.insert(p, e);
        proof {
            let nw = out@;
            assert(nw =~= old_out.insert(p as int, e));
            assert forall|i: int, j: int| 0 <= i < j < nw.len() implies lex_lt(#[trigger] nw[i].name@, #[trigger] nw[j].name@) by {
                if j < p {
                } else if j == p {
                } else if i < p {
                    assert(lex_lt(nw[i].name@, e.name@));
                    assert(lex_lt(e.name@, old_out[p as int].name@));
                    if j - 1 > p {
                        lemma_lex_transitive(e.name@, old_out[p as int].name@, old_out[j - 1].name@);
                    }
                    lemma_lex_transitive(nw[i].name@, e.name@, nw[j].name@);
                } else if i == p {
                    if j - 1 > p {
                        lemma_lex_transitive(e.name@, old_out[p as int].name@, old_out[j - 1].name@);
                    }
                } else {
                }
            }
            let tail_old = orig.subrange(n + 1, orig.len() as int);
            let tail_new = orig.subrange(n, orig.len() as int);
            assert(tail_new =~= seq![e] + tail_old);
            assert forall|x: TreeEntry| tail_new.contains(x) <==> nw.contains(x) by {
                if tail_new.contains(x) {
                    let j = choose|j: int| 0 <= j < tail_new.len() && tail_new[j] == x;
                    if j == 0 {
                        assert(nw[p as int] == x);
                    } else {
                        assert(tail_old[j - 1] == x);
                        assert(tail_old.contains(x));
                        assert(old_out.contains(x));
                        let k = choose|k: int| 0 <= k < old_out.len() && old_out[k] == x;
                        if k < p {
                            assert(nw[k] == x);
                        } else {
                            assert(nw[k + 1] == x);
                        }
                    }
                }
                if nw.contains(x) {
                    let k = choose|k: int| 0 <= k < nw.len() && nw[k] == x;
                    if k == p {
                        assert(tail_new[0] == x);
                    } else {
                        let k2 = if k < p { k } else { k - 1 };
                        assert(old_out[k2] == x);
                        assert(old_out.contains(x));
                        assert(tail_old.contains(x));
                        let j = choose|j: int| 0 <= j < tail_old.len() && tail_old[j] == x;
                        assert(tail_new[j + 1] == x);
                    }
                }
            }
            assert(rest@ =~= orig.subrange(0, rest@.len() as int));
        }
    }
    assert(orig.subrange(0, orig.len() as int) =~= orig);
    out
}

} // verus!

verus! {

/// One entry of a directory as read from disk: a regular file with its
/// bytes, or a subdirectory whose tree has already been built.
pub enum DirItem {
    File { name: Vec<u8>, executable: bool, content: Vec<u8> },
    Subdir { name: Vec<u8>, tree: ObjectId },
}

/// The name of a directory item.
pub open spec fn item_name(it: DirItem) -> Seq<u8> {
    match it {
        DirItem::File { name, .. } => name@,
        DirItem::Subdir { name, .. } => name@,
    }
}

/// Whether an item gets an entry: every file does, a subdirectory only when
/// its tree is not the empty tree.
pub open spec fn item_kept(it: DirItem) -> bool {
    match it {
        DirItem::File { .. } => true,
        DirItem::Subdir { tree, .. } => tree@ != empty_tree_address(),
    }
}

/// Whether `e` is the entry that stands for the item `it`.
pub open spec fn entry_of(it: DirItem, e: TreeEntry) -> bool {
    match it {
        DirItem::File { name, executable, content } => {
            &&& e.mode == (if executable { EntryMode::Executable } else { EntryMode::Regular })
            &&& e.name@ == name@
            &&& e.id@ == address_of(ObjectKind::Blob, content@)
        },
        DirItem::Subdir { name, tree } => {
            &&& e.mode == EntryMode::Directory
            &&& e.name@ == name@
            &&& e.id@ == tree@
        },
    }
}

/// No two items of a directory share a name.
pub open spec fn distinct_item_names(items: Seq<DirItem>) -> bool {
    forall|i: int, j: int|
        0 <= i < items.len() && 0 <= j < items.len() && i != j ==> item_name(#[trigger] items[i])
            != item_name(#[trigger] items[j])
}

/// What building one directory level yields: the tree object and its
/// entries in stored order.
pub struct BuiltTree {
    pub tree: StoredObject,
    pub entries: Vec<TreeEntry>,
}

/// The address of the empty tree.
pub fn empty_tree_id() -> (r: ObjectId)
    ensures
        r@ == empty_tree_address(),
        r.well_formed(),
{
    let none: Vec<u8> = Vec::new();
    let o = make_object(ObjectKind::Tree, none.as_slice());
    assert(none@ =~= Seq::<u8>::empty());
    o.id
}

/// `e` stands for one of the first `n` items, one that gets an entry.
pub open spec fn from_items(items: Seq<DirItem>, n: int, e: TreeEntry) -> bool {
    exists|j: int| 0 <= j < n && item_kept(items[j]) && entry_of(items[j], e)
}

/// Some entry of `es` stands for `it`.
pub open spec fn has_entry(es: Seq<TreeEntry>, it: DirItem) -> bool {
    exists|m: int| 0 <= m < es.len() && entry_of(it, es[m])
}

/// What `build_tree` promises of the entries it returns for `items`: sorted
/// by name, each standing for an item that gets an entry, and every such
/// item standing in them.
pub open spec fn built_from(items: Seq<DirItem>, es: Seq<TreeEntry>) -> bool {
    &&& sorted_by_name(es)
    &&& forall|k: int| 0 <= k < es.len() ==> from_items(items, items.len() as int, #[trigger] es[k])
    &&& forall|i: int| 0 <= i < items.len() && item_kept(#[trigger] items[i]) ==> has_entry(es, items[i])
}

fn entry_for(it: &DirItem, empty: &ObjectId) -> (r: Option<TreeEntry>)
    requires
        empty@ == empty_tree_address(),
    ensures
        r is Some <==> item_kept(*it),
        r matches Some(e) ==> entry_of(*it, e),
{
    match it {
        DirItem::File { name, executable, content } => {
            let blob = make_object(ObjectKind::Blob, content.as_slice());
            let mode = if *executable { EntryMode::Executable } else { EntryMode::Regular };
            let e = TreeEntry { mode, name: copy_range(name.as_slice(), 0, name.len()), id: blob.id.copy() };
            assert(e.name@ =~= name@);
            Some(e)
        },
        DirItem::Subdir { name, tree } => {
            if tree.same(empty) {
                None
            } else {
                let e = TreeEntry { mode: EntryMode::Directory, name: copy_range(name.as_slice(), 0, name.len()), id: tree.copy() };
                assert(e.name@ =~= name@);
                Some(e)
            }
        },
    }
}

/// Builds the tree of one directory from its items: an entry for each file and for each subdirectory whose tree is not empty,
/// sorted by name, and the tree object over their records.
#[verifier::spinoff_prover]
#[verifier::rlimit(60)]
pub fn build_tree(items: &Vec<DirItem>) -> (r: BuiltTree)
    requires
        distinct_item_names(items@),
    ensures
        built_from(items@, r.entries@),
        sorted_by_name(r.entries@),
        forall|k: int| 0 <= k < r.entries@.len() ==> exists|i: int|
            0 <= i < items@.len() && item_kept(items@[i]) && entry_of(items@[i], #[trigger] r.entries@[k]),
        forall|i: int| 0 <= i < items@.len() && item_kept(#[trigger] items@[i]) ==> exists|k: int|
            0 <= k < r.entries@.len() && entry_of(items@[i], #[trigger] r.entries@[k]),
        forall|k: int| 0 <= k < r.entries@.len() && (#[trigger] r.entries@[k]).mode == EntryMode::Directory
            ==> r.entries@[k].id@ != empty_tree_address(),
        r.tree.data@ == encoded(ObjectKind::Tree, serialized(r.entries@)),
        r.tree.id@ == address_of(ObjectKind::Tree, serialized(r.entries@)),
        r.tree.id.well_formed(),
{
    let empty = empty_tree_id();
    let mut es: Vec<TreeEntry> = Vec::new();
    let mut i: usize = 0;
    while i < items.len()
        invariant
            i <= items@.len(),
            distinct_item_names(items@),
            empty@ == empty_tree_address(),
            distinct_names(es@),
            forall|m: int| 0 <= m < es@.len() ==> from_items(items@, i as int, #[trigger] es@[m]),
            forall|j: int| 0 <= j < i && item_kept(#[trigger] items@[j]) ==> has_entry(es@, items@[j]),
        decreases items@.len() - i,
    {
        let oe = entry_for(&items[i], &empty);
        let ghost es0 = es@;
        match oe {
            Some(e) => {
                assert(entry_of(items@[i as int], e) && item_kept(items@[i as int]));
                proof {
                    assert forall|m: int| 0 <= m < es0.len() implies #[trigger] es0[m].name@ != e.name@ by {
                        assert(from_items(items@, i as int, es0[m]));
                        let j = choose|j: int| 0 <= j < i && item_kept(items@[j]) && entry_of(items@[j], es0[m]);
                        assert(item_name(items@[j]) != item_name(items@[i as int]));
                    }
                }
                es.push(e);
                proof {
                    assert forall|x: int, y: int| 0 <= x < es@.len() && 0 <= y < es@.len() && x != y
                        implies #[trigger] es@[x].name@ != #[trigger] es@[y].name@ by {
                        if x < es0.len() && y < es0.len() {
                            assert(es@[x] == es0[x] && es@[y] == es0[y]);
                        } else if x < es0.len() {
                            assert(es@[x] == es0[x]);
                        } else if y < es0.len() {
                            assert(es@[y] == es0[y]);
                        }
                    }
                }
            },
            None => {},
        }
        proof {
            assert forall|m: int| 0 <= m < es@.len() implies from_items(items@, i + 1, #[trigger] es@[m]) by {
                if m < es0.len() {
                    assert(es@[m] == es0[m]);
                    assert(from_items(items@, i as int, es0[m]));
                    let j = choose|j: int| 0 <= j < i && item_kept(items@[j]) && entry_of(items@[j], es0[m]);
                    assert(entry_of(items@[j], es@[m]));
                } else {
                    assert(entry_of(items@[i as int], es@[m]));
                }
            }
            assert forall|j: int| 0 <= j < i + 1 && item_kept(#[trigger] items@[j]) implies has_entry(es@, items@[j]) by {
                if j == i {
                    assert(entry_of(items@[j], es@[es@.len() - 1]));
                } else {
                    assert(has_entry(es0, items@[j]));
                    let m = choose|m: int| 0 <= m < es0.len() && entry_of(items@[j], es0[m]);
                    assert(es@[m] == es0[m]);
                }
            }
        }
        i = i + 1;
    }
    let ghost unsorted = es@;
    let entries = sort_entries(es);
    proof {
        assert forall|k: int| 0 <= k < entries@.len() implies exists|i: int|
            0 <= i < items@.len() && item_kept(items@[i]) && entry_of(items@[i], #[trigger] entries@[k]) by {
            assert(entries@.contains(entries@[k]));
            assert(unsorted.contains(entries@[k]));
            let m = choose|m: int| 0 <= m < unsorted.len() && unsorted[m] == entries@[k];
            assert(from_items(items@, items@.len() as int, unsorted[m]));
            let j = choose|j: int| 0 <= j < items@.len() && item_kept(items@[j]) && entry_of(items@[j], unsorted[m]);
            assert(item_kept(items@[j]) && entry_of(items@[j], entries@[k]));
        }
        assert forall|j: int| 0 <= j < items@.len() && item_kept(#[trigger] items@[j]) implies exists|k: int|
            0 <= k < entries@.len() && entry_of(items@[j], #[trigger] entries@[k]) by {
            assert(has_entry(unsorted, items@[j]));
            let m = choose|m: int| 0 <= m < unsorted.len() && entry_of(items@[j], unsorted[m]);
            assert(unsorted.contains(unsorted[m]));
            assert(entries@.contains(unsorted[m]));
            let k = choose|k: int| 0 <= k < entries@.len() && entries@[k] == unsorted[m];
            assert(entry_of(items@[j], entries@[k]));
        }
        assert forall|k: int| 0 <= k < entries@.len() && (#[trigger] entries@[k]).mode == EntryMode::Directory
            implies entries@[k].id@ != empty_tree_address() by {
            let i = choose|i: int| 0 <= i < items@.len() && item_kept(items@[i]) && entry_of(items@[i], #[trigger] entries@[k]);
        }
    }
    let payload = serialize_entries(&entries);
    let tree = make_object(ObjectKind::Tree, payload.as_slice());
    BuiltTree { tree, entries }
}

} // verus!
