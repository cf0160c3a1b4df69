//! Reading the names back out of a tree's payload.

use vstd::prelude::*;
use crate::bytes::copy_range;
use crate::codec::{ObjectError, ObjectKind, address_of};
use crate::tree::{
    DirItem, TreeEntry, built_from, entry_of, from_items, has_entry, item_kept, mode_text, record, serialized,
    sorted_by_name,
};
use crate::order::{lex_lt, lemma_lex_asymmetric, lemma_lex_irreflexive};

verus! {

/// The first index at or after `i` where `s` holds `c`, or `s.len()`.
pub open spec fn byte_index(s: Seq<u8>, c: u8, i: int) -> int
    decreases s.len() - i,
{
    if i < 0 || i >= s.len() {
        s.len() as int
    } else if s[i] == c {
        i
    } else {
        byte_index(s, c, i + 1)
    }
}

/// The names of the records of `p` from `start` on: each record is
/// `"<mode> <name>\0"` and twenty bytes, the name after the first space.
/// `None` where a record is cut short or has no space.
pub open spec fn names_from(p: Seq<u8>, start: int) -> Option<Seq<Seq<u8>>>
    decreases p.len() - start,
{
    if start < 0 || start >= p.len() {
        Some(Seq::empty())
    } else {
        let z = byte_index(p, 0, start);
        let sp = byte_index(p.subrange(0, z), 32, start);
        if z < start || z + 21 > p.len() || sp < start || sp >= z {
            None
        } else {
            match names_from(p, z + 21) {
                Some(rest) => Some(seq![p.subrange(sp + 1, z)] + rest),
                None => None,
            }
        }
    }
}

/// The names of a tree's payload.
pub open spec fn tree_names(p: Seq<u8>) -> Option<Seq<Seq<u8>>> {
    names_from(p, 0)
}

fn index_of(s: &[u8], c: u8, start: usize, end: usize) -> (r: usize)
    requires
        start <= end <= s@.len(),
    ensures
        r == byte_index(s@.subrange(0, end as int), c, start as int),
        start <= r <= end,
{
    let ghost t = s@.subrange(0, end as int);
    let mut i: usize = start;
    while i < end
        invariant
            start <= i <= end <= s@.len(),
            t == s@.subrange(0, end as int),
            byte_index(t, c, start as int) == byte_index(t, c, i as int),
        decreases end - i,
    {
        if s[i] == c {
            return i;
        }
        i = i + 1;
    }
    i
}

/// The names that a tree's payload lists, in stored order. Fails with
/// `Format` where a record lacks its space, its zero byte or its twenty
/// address bytes.
pub fn ls_tree(payload: &[u8]) -> (r: Result<Vec<Vec<u8>>, ObjectError>)
    ensures
        r matches Ok(names) ==> tree_names(payload@) == Some(names@.map_values(|n: Vec<u8>| n@)),
        r matches Err(e) ==> e == ObjectError::Format && tree_names(payload@) is None,
{
    let n = payload.len();
    let mut names: Vec<Vec<u8>> = Vec::new();
    let mut pos: usize = 0;
    assert(payload@.subrange(0, n as int) =~= payload@);
    while pos < n
        invariant
            n == payload@.len(),
            pos <= n,
            tree_names(payload@) == match names_from(payload@, pos as int) {
                Some(rest) => Some(names@.map_values(|v: Vec<u8>| v@) + rest),
                None => None::<Seq<Seq<u8>>>,
            },
        decreases n - pos,
    {
        let z = index_of(payload, 0, pos, n);
        assert(payload@.subrange(0, n as int) =~= payload@);
        if z >= n || n - z < 21 {
            return Err(ObjectError::Format);
        }
        let sp = index_of(payload, 32, pos, z);
        if sp >= z {
            return Err(ObjectError::Format);
        }
        let name = copy_range(payload, sp + 1, z);
        let ghost before = names@.map_values(|v: Vec<u8>| v@);
        names.push(name);
        assert(names@.map_values(|v: Vec<u8>| v@) =~= before.push(name@));
        proof {
            match names_from(payload@, z + 21) {
                Some(rest) => {
                    assert(before + (seq![name@] + rest) =~= before.push(name@) + rest);
                },
                None => {},
            }
        }
        pos = z + 21;
    }
    assert(names@.map_values(|v: Vec<u8>| v@) + Seq::<Seq<u8>>::empty() =~= names@.map_values(|v: Vec<u8>| v@));
    Ok(names)
}

} // verus!

verus! {

proof fn lemma_byte_index_found(s: Seq<u8>, c: u8, i: int, j: int)
    requires
        0 <= i <= j < s.len(),
        s[j] == c,
        forall|k: int| i <= k < j ==> s[k] != c,
    ensures
        byte_index(s, c, i) == j,
    decreases j - i,
{
    if i < j {
        lemma_byte_index_found(s, c, i + 1, j);
    }
}

/// The records of a non-empty sequence: the first one, then the rest.
pub proof fn lemma_serialized_front(es: Seq<TreeEntry>)
    requires
        es.len() > 0,
    ensures
        serialized(es) == record(es[0]) + serialized(es.drop_first()),
    decreases es.len(),
{
    if es.len() == 1 {
        assert(es.drop_last() =~= Seq::<TreeEntry>::empty());
        assert(es.drop_first() =~= Seq::<TreeEntry>::empty());
        assert(serialized(es) =~= record(es[0]) + serialized(es.drop_first()));
    } else {
        lemma_serialized_front(es.drop_last());
        assert(es.drop_last().drop_first() =~= es.drop_first().drop_last());
        assert(es.drop_first().last() == es.last());
        assert(serialized(es) =~= record(es[0]) + serialized(es.drop_first()));
    }
}

/// A name that can stand in a record: it holds no zero byte.
pub open spec fn is_record_name(n: Seq<u8>) -> bool {
    forall|k: int| 0 <= k < n.len() ==> n[k] != 0
}

proof fn lemma_names_after(q: Seq<u8>, es: Seq<TreeEntry>)
    requires
        forall|i: int| 0 <= i < es.len() ==> (#[trigger] es[i]).id@.len() == 20 && is_record_name(es[i].name@),
    ensures
        names_from(q + serialized(es), q.len() as int) == Some(es.map_values(|e: TreeEntry| e.name@)),
    decreases es.len(),
{
    let p = q + serialized(es);
    if es.len() == 0 {
        assert(p =~= q);
        assert(es.map_values(|e: TreeEntry| e.name@) =~= Seq::<Seq<u8>>::empty());
    } else {
        let e = es[0];
        let rest = es.drop_first();
        lemma_serialized_front(es);
        let q2 = q + record(e);
        assert(p =~= q2 + serialized(rest));
        let m = mode_text(e.mode);
        let start = q.len() as int;
        let sp = start + m.len();
        let z = sp + 1 + e.name@.len();
        assert(is_record_name(e.name@));
        assert forall|k: int| start <= k < z implies p[k] != 0 by {
            if k < sp {
                assert(p[k] == m[k - start]);
            } else if k > sp {
                assert(p[k] == e.name@[k - sp - 1]);
            }
        }
        assert(p[z] == 0);
        lemma_byte_index_found(p, 0, start, z);
        let h = p.subrange(0, z);
        assert forall|k: int| start <= k < sp implies h[k] != 32 by {
            assert(h[k] == m[k - start]);
        }
        assert(h[sp] == 32);
        lemma_byte_index_found(h, 32, start, sp);
        assert(q2.len() == z + 21);
        lemma_names_after(q2, rest);
        assert(p.subrange(sp + 1, z) =~= e.name@);
        assert forall|i: int| 0 <= i < rest.len() implies (#[trigger] rest[i]).id@.len() == 20 && is_record_name(rest[i].name@) by {
            assert(rest[i] == es[i + 1]);
        }
        assert(es.map_values(|e: TreeEntry| e.name@) =~= seq![e.name@] + rest.map_values(|e: TreeEntry| e.name@));
    }
}

/// Listing a tree payload built from entries gives back exactly their names,
/// in their order, consuming every byte, where no name holds a zero byte.
pub proof fn lemma_ls_tree_serialized(es: Seq<TreeEntry>)
    requires
        forall|i: int| 0 <= i < es.len() ==> (#[trigger] es[i]).id.well_formed() && is_record_name(es[i].name@),
    ensures
        tree_names(serialized(es)) == Some(es.map_values(|e: TreeEntry| e.name@)),
{
    assert forall|i: int| 0 <= i < es.len() implies (#[trigger] es[i]).id@.len() == 20 && is_record_name(es[i].name@) by {
        crate::codec::ObjectId::lemma_len(&es[i].id);
    }
    lemma_names_after(Seq::empty(), es);
    assert(Seq::<u8>::empty() + serialized(es) =~= serialized(es));
}

} // verus!

verus! {

/// Two entries with the same mode, name and address.
pub open spec fn same_entry(a: TreeEntry, b: TreeEntry) -> bool {
    a.mode == b.mode && a.name@ == b.name@ && a.id@ == b.id@
}

/// `b` holds an entry like `e`.
pub open spec fn has_like(e: TreeEntry, b: Seq<TreeEntry>) -> bool {
    exists|j: int| 0 <= j < b.len() && same_entry(e, #[trigger] b[j])
}

/// Every entry of `a` has its like in `b`.
pub open spec fn covered_by(a: Seq<TreeEntry>, b: Seq<TreeEntry>) -> bool {
    forall|i: int| 0 <= i < a.len() ==> has_like(#[trigger] a[i], b)
}

proof fn lemma_heads_same(a: Seq<TreeEntry>, b: Seq<TreeEntry>)
    requires
        a.len() > 0,
        b.len() > 0,
        sorted_by_name(a),
        sorted_by_name(b),
        covered_by(a, b),
        covered_by(b, a),
    ensures
        same_entry(a[0], b[0]),
{
    assert(has_like(a[0], b));
    assert(has_like(b[0], a));
    let j = choose|j: int| 0 <= j < b.len() && same_entry(a[0], b[j]);
    let i = choose|i: int| 0 <= i < a.len() && same_entry(b[0], a[i]);
    if j > 0 {
        assert(lex_lt(b[0].name@, b[j].name@));
        if i == 0 {
            lemma_lex_irreflexive(b[0].name@);
        } else {
            assert(lex_lt(a[0].name@, a[i].name@));
            lemma_lex_asymmetric(a[0].name@, a[i].name@);
        }
    }
}

proof fn lemma_tails_covered(a: Seq<TreeEntry>, b: Seq<TreeEntry>)
    requires
        a.len() > 0,
        b.len() > 0,
        sorted_by_name(a),
        covered_by(a, b),
        same_entry(a[0], b[0]),
    ensures
        covered_by(a.drop_first(), b.drop_first()),
{
    let a1 = a.drop_first();
    let b1 = b.drop_first();
    assert forall|x: int| 0 <= x < a1.len() implies has_like(#[trigger] a1[x], b1) by {
        assert(a1[x] == a[x + 1]);
        assert(has_like(a[x + 1], b));
        let y = choose|y: int| 0 <= y < b.len() && same_entry(a[x + 1], b[y]);
        assert(lex_lt(a[0].name@, a[x + 1].name@));
        if y == 0 {
            lemma_lex_irreflexive(a[0].name@);
        }
        assert(b1[y - 1] == b[y]);
        assert(same_entry(a1[x], b1[y - 1]));
    }
}

proof fn lemma_tail_sorted(a: Seq<TreeEntry>)
    requires
        a.len() > 0,
        sorted_by_name(a),
    ensures
        sorted_by_name(a.drop_first()),
{
    let a1 = a.drop_first();
    assert forall|x: int, y: int| 0 <= x < y < a1.len() implies lex_lt(#[trigger] a1[x].name@, #[trigger] a1[y].name@) by {
        assert(a1[x] == a[x + 1] && a1[y] == a[y + 1]);
    }
}

/// Two name-sorted sequences that hold the same entries give the same tree
/// payload, whatever order the entries were listed in before sorting.
pub proof fn lemma_same_entries_same_payload(a: Seq<TreeEntry>, b: Seq<TreeEntry>)
    requires
        sorted_by_name(a),
        sorted_by_name(b),
        covered_by(a, b),
        covered_by(b, a),
    ensures
        serialized(a) == serialized(b),
    decreases a.len(),
{
    if a.len() == 0 {
        if b.len() > 0 {
            assert(has_like(b[0], a));
            let j = choose|j: int| 0 <= j < a.len() && same_entry(b[0], a[j]);
        }
        assert(b =~= Seq::<TreeEntry>::empty());
    } else if b.len() == 0 {
        assert(has_like(a[0], b));
        let j = choose|j: int| 0 <= j < b.len() && same_entry(a[0], b[j]);
    } else {
        lemma_heads_same(a, b);
        lemma_tails_covered(a, b);
        lemma_tails_covered(b, a);
        lemma_tail_sorted(a);
        lemma_tail_sorted(b);
        lemma_same_entries_same_payload(a.drop_first(), b.drop_first());
        lemma_serialized_front(a);
        lemma_serialized_front(b);
        assert(record(a[0]) == record(b[0]));
    }
}

} // verus!

verus! {

/// A directory's tree does not depend on the order in which its items were
/// listed: for two lists holding the same items, the entries that
/// `build_tree` promises serialize to the same payload, hence the same
/// address.
pub proof fn lemma_listing_order_irrelevant(
    items1: Seq<DirItem>,
    items2: Seq<DirItem>,
    es1: Seq<TreeEntry>,
    es2: Seq<TreeEntry>,
)
    requires
        forall|it: DirItem| items1.contains(it) <==> items2.contains(it),
        built_from(items1, es1),
        built_from(items2, es2),
    ensures
        serialized(es1) == serialized(es2),
        address_of(ObjectKind::Tree, serialized(es1)) == address_of(ObjectKind::Tree, serialized(es2)),
{
    lemma_built_covered(items1, items2, es1, es2);
    lemma_built_covered(items2, items1, es2, es1);
    lemma_same_entries_same_payload(es1, es2);
}

proof fn lemma_built_covered(items1: Seq<DirItem>, items2: Seq<DirItem>, es1: Seq<TreeEntry>, es2: Seq<TreeEntry>)
    requires
        forall|it: DirItem| items1.contains(it) ==> items2.contains(it),
        built_from(items1, es1),
        built_from(items2, es2),
    ensures
        covered_by(es1, es2),
{
    assert forall|k: int| 0 <= k < es1.len() implies has_like(#[trigger] es1[k], es2) by {
        assert(from_items(items1, items1.len() as int, es1[k]));
        let j = choose|j: int| 0 <= j < items1.len() && item_kept(items1[j]) && entry_of(items1[j], es1[k]);
        let it = items1[j];
        assert(items1.contains(it));
        assert(items2.contains(it));
        let i = choose|i: int| 0 <= i < items2.len() && items2[i] == it;
        assert(item_kept(items2[i]));
        assert(has_entry(es2, items2[i]));
        let m = choose|m: int| 0 <= m < es2.len() && entry_of(it, es2[m]);
        assert(same_entry(es1[k], es2[m]));
    }
}

} // verus!
