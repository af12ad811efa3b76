use vstd::prelude::*;
use crate::json::JValue;
use crate::store::lemma_cells_map_last;
use crate::relational::{
    CellV, RecordV, StructureV, WritePolicy, cell_matches, cells_map, child_name, decode,
    empty_structure, encode, entry_cells, entry_keys, hits, in_family, index_of, latest, lemma_index_of,
    load, put_structure, rebuild, recent, record_matches, schema_children, schema_object, search,
    search_upto, store_children, store_object, structure_hits, structure_of, swept, widen,
    widen_level, write_level, write_records,
};

verus! {

pub proof fn lemma_index_of_same_names(a: Seq<StructureV>, b: Seq<StructureV>, m: Seq<char>)
    requires
        a.len() == b.len(),
        forall|i: int| 0 <= i < a.len() ==> #[trigger] a[i].name == b[i].name,
    ensures
        index_of(a, m) == index_of(b, m),
    decreases a.len(),
{
    if a.len() > 0 {
        lemma_index_of_same_names(a.drop_last(), b.drop_last(), m);
    }
}

/// Looking a structure up after `put_structure` finds the one put, or
/// what was there before for any other name.
pub proof fn lemma_put_structure(cat: Seq<StructureV>, s: StructureV, m: Seq<char>)
    ensures
        structure_of(put_structure(cat, s), m) == if m == s.name {
            s
        } else {
            structure_of(cat, m)
        },
{
    let i = index_of(cat, s.name);
    lemma_index_of(cat, s.name);
    lemma_index_of(cat, m);
    if i >= 0 {
        let u = cat.update(i, s);
        lemma_index_of_same_names(u, cat, m);
        if index_of(cat, m) == i {
            assert(m == s.name);
        }
    } else {
        let u = cat.push(s);
        assert(u.drop_last() =~= cat);
        if m != s.name {
            assert(index_of(u, m) == index_of(cat, m));
        }
    }
}

/// Storing an object touches no structure whose name is shorter than the
/// one it is stored into.
pub proof fn lemma_store_object_frame(
    cat: Seq<StructureV>,
    name: Seq<char>,
    entries: Seq<(Seq<char>, JValue)>,
    now: int,
    policy: WritePolicy,
    m: Seq<char>,
)
    requires
        m.len() < name.len(),
    ensures
        structure_of(store_object(cat, name, entries, now, policy), m) == structure_of(cat, m),
    decreases entries, 1int,
{
    let wl = write_level(cat, name, entries, now, policy);
    lemma_store_children_frame(wl, name, entries, now, policy, m);
    let s = structure_of(cat, name);
    lemma_put_structure(
        cat,
        StructureV {
            name,
            columns: widen(s.columns, entry_keys(entries)),
            records: write_records(s.records, cells_map(entry_cells(entries)), now, policy),
        },
        m,
    );
}

/// Storing the children of an object touches no structure whose name is
/// no longer than the object's own.
pub proof fn lemma_store_children_frame(
    cat: Seq<StructureV>,
    name: Seq<char>,
    entries: Seq<(Seq<char>, JValue)>,
    now: int,
    policy: WritePolicy,
    m: Seq<char>,
)
    requires
        m.len() <= name.len(),
    ensures
        structure_of(store_children(cat, name, entries, now, policy), m) == structure_of(cat, m),
    decreases entries, 0int,
{
    if entries.len() > 0 {
        let before = store_children(cat, name, entries.drop_last(), now, policy);
        lemma_store_children_frame(cat, name, entries.drop_last(), now, policy, m);
        let (key, value) = entries.last();
        match value {
            JValue::Object(sub) => {
                lemma_store_object_frame(before, child_name(name, key), sub, now, policy, m);
            },
            _ => {},
        }
    }
}

/// The structure an object is stored into ends up widened by its keys and
/// holding one more write of its cells.
pub proof fn lemma_store_object_level(
    cat: Seq<StructureV>,
    name: Seq<char>,
    entries: Seq<(Seq<char>, JValue)>,
    now: int,
    policy: WritePolicy,
)
    ensures
        structure_of(store_object(cat, name, entries, now, policy), name) == (StructureV {
            name,
            columns: widen(structure_of(cat, name).columns, entry_keys(entries)),
            records: write_records(
                structure_of(cat, name).records,
                cells_map(entry_cells(entries)),
                now,
                policy,
            ),
        }),
{
    let wl = write_level(cat, name, entries, now, policy);
    lemma_store_children_frame(wl, name, entries, now, policy, name);
    let s = structure_of(cat, name);
    lemma_put_structure(
        cat,
        StructureV {
            name,
            columns: widen(s.columns, entry_keys(entries)),
            records: write_records(s.records, cells_map(entry_cells(entries)), now, policy),
        },
        name,
    );
}

pub proof fn lemma_widen_contains(columns: Seq<Seq<char>>, keys: Seq<Seq<char>>)
    ensures
        forall|c: Seq<char>| columns.contains(c) ==> #[trigger] widen(columns, keys).contains(c),
        forall|i: int| 0 <= i < keys.len() ==> widen(columns, keys).contains(#[trigger] keys[i]),
    decreases keys.len(),
{
    if keys.len() > 0 {
        lemma_widen_contains(columns, keys.drop_last());
        let w = widen(columns, keys.drop_last());
        assert forall|c: Seq<char>| w.contains(c) implies #[trigger] widen(columns, keys).contains(
            c,
        ) by {
            if !w.contains(keys.last()) {
                let k = choose|k: int| 0 <= k < w.len() && w[k] == c;
                assert(w.push(keys.last())[k] == c);
            }
        }
        assert forall|i: int| 0 <= i < keys.len() implies widen(columns, keys).contains(
            #[trigger] keys[i],
        ) by {
            if i < keys.len() - 1 {
                assert(keys.drop_last()[i] == keys[i]);
            } else if !w.contains(keys.last()) {
                assert(w.push(keys.last())[w.len() as int] == keys[i]);
            }
        }
    }
}

pub proof fn lemma_widen_absorbs(columns: Seq<Seq<char>>, keys: Seq<Seq<char>>)
    requires
        forall|i: int| 0 <= i < keys.len() ==> columns.contains(#[trigger] keys[i]),
    ensures
        widen(columns, keys) == columns,
    decreases keys.len(),
{
    if keys.len() > 0 {
        assert forall|i: int| 0 <= i < keys.len() - 1 implies columns.contains(
            #[trigger] keys.drop_last()[i],
        ) by {
            assert(keys.drop_last()[i] == keys[i]);
        }
        lemma_widen_absorbs(columns, keys.drop_last());
        assert(columns.contains(keys[keys.len() - 1]));
    }
}

/// Putting the same structure twice is putting it once.
pub proof fn lemma_put_structure_twice(cat: Seq<StructureV>, s: StructureV)
    ensures
        put_structure(put_structure(cat, s), s) == put_structure(cat, s),
{
    let i = index_of(cat, s.name);
    lemma_index_of(cat, s.name);
    let u = put_structure(cat, s);
    if i >= 0 {
        lemma_index_of_same_names(cat.update(i, s), cat, s.name);
        assert(u.update(i, s) =~= u);
    } else {
        assert(u.drop_last() =~= cat);
        assert(index_of(u, s.name) == cat.len());
        assert(u.update(cat.len() as int, s) =~= u);
    }
}

/// Making sure a structure has some columns a second time, with nothing
/// written in between, changes nothing: the structure is found again, and
/// no structure or column is added twice.
pub proof fn lemma_widen_level_idempotent(cat: Seq<StructureV>, name: Seq<char>, keys: Seq<Seq<char>>)
    ensures
        widen_level(widen_level(cat, name, keys), name, keys) == widen_level(cat, name, keys),
{
    let old_s = structure_of(cat, name);
    let w = widen(old_s.columns, keys);
    let s1 = StructureV { name, columns: w, records: old_s.records };
    lemma_put_structure(cat, s1, name);
    lemma_widen_contains(old_s.columns, keys);
    lemma_widen_absorbs(w, keys);
    lemma_put_structure_twice(cat, s1);
}

pub proof fn lemma_cells_map_domain(s: Seq<(Seq<char>, CellV)>, k: Seq<char>)
    ensures
        cells_map(s).contains_key(k) <==> exists|i: int| 0 <= i < s.len() && #[trigger] s[i].0 == k,
    decreases s.len(),
{
    if s.len() > 0 {
        lemma_cells_map_domain(s.drop_last(), k);
        if cells_map(s.drop_last()).contains_key(k) {
            let i = choose|i: int| 0 <= i < s.len() - 1 && #[trigger] s.drop_last()[i].0 == k;
            assert(s[i].0 == k);
        }
        if exists|i: int| 0 <= i < s.len() && #[trigger] s[i].0 == k {
            let i = choose|i: int| 0 <= i < s.len() && #[trigger] s[i].0 == k;
            if i < s.len() - 1 {
                assert(s.drop_last()[i].0 == k);
            }
        }
    }
}

/// Columns only grow. After storing `first` and then `second` into the
/// same structure, its columns hold every column it had before and every
/// key of both documents. When appending, the record of `first` has no
/// cell under any key that `first` does not have, so reading it back
/// leaves such a column out rather than failing.
pub proof fn lemma_schema_monotone(
    cat: Seq<StructureV>,
    name: Seq<char>,
    first: Seq<(Seq<char>, JValue)>,
    second: Seq<(Seq<char>, JValue)>,
    t1: int,
    t2: int,
    policy: WritePolicy,
)
    ensures
        ({
            let after = store_object(store_object(cat, name, first, t1, policy), name, second, t2, policy);
            let columns = structure_of(after, name).columns;
            &&& forall|c: Seq<char>| structure_of(cat, name).columns.contains(c) ==> #[trigger] columns.contains(c)
            &&& forall|i: int| 0 <= i < first.len() ==> columns.contains(#[trigger] first[i].0)
            &&& forall|i: int| 0 <= i < second.len() ==> columns.contains(#[trigger] second[i].0)
        }),
        policy == WritePolicy::Append ==> ({
            let after = store_object(store_object(cat, name, first, t1, policy), name, second, t2, policy);
            let records = structure_of(after, name).records;
            let n = structure_of(cat, name).records.len();
            &&& records.len() == n + 2
            &&& records[n as int].timestamp == t1
            &&& records[n + 1int].timestamp == t2
            &&& forall|k: Seq<char>|
                (forall|i: int| 0 <= i < first.len() ==> #[trigger] first[i].0 != k)
                    ==> !(#[trigger] records[n as int].cells.contains_key(k))
        }),
{
    let mid = store_object(cat, name, first, t1, policy);
    let after = store_object(mid, name, second, t2, policy);
    lemma_store_object_level(cat, name, first, t1, policy);
    lemma_store_object_level(mid, name, second, t2, policy);
    let c0 = structure_of(cat, name).columns;
    let c1 = structure_of(mid, name).columns;
    let c2 = structure_of(after, name).columns;
    lemma_widen_contains(c0, entry_keys(first));
    lemma_widen_contains(c1, entry_keys(second));
    assert forall|i: int| 0 <= i < first.len() implies c2.contains(#[trigger] first[i].0) by {
        assert(entry_keys(first)[i] == first[i].0);
    }
    assert forall|i: int| 0 <= i < second.len() implies c2.contains(#[trigger] second[i].0) by {
        assert(entry_keys(second)[i] == second[i].0);
    }
    if policy == WritePolicy::Append {
        let n = structure_of(cat, name).records.len();
        let records = structure_of(after, name).records;
        assert(records[n as int] == (RecordV {
            timestamp: t1,
            cells: cells_map(entry_cells(first)),
        }));
        assert forall|k: Seq<char>|
            (forall|i: int| 0 <= i < first.len() ==> #[trigger] first[i].0 != k) implies !(
            #[trigger] records[n as int].cells.contains_key(k)) by {
            lemma_cells_map_domain(entry_cells(first), k);
            if exists|i: int| 0 <= i < entry_cells(first).len() && #[trigger] entry_cells(first)[i].0 == k {
                let i = choose|i: int|
                    0 <= i < entry_cells(first).len() && #[trigger] entry_cells(first)[i].0 == k;
                assert(first[i].0 == k);
            }
        }
    }
}

/// Under the upsert-singleton policy a write leaves the structure it
/// writes with exactly one record, stamped with the write time, whose cells
/// are the earlier record's overwritten by the document's.
pub proof fn lemma_upsert_single(
    cat: Seq<StructureV>,
    name: Seq<char>,
    entries: Seq<(Seq<char>, JValue)>,
    now: int,
)
    requires
        structure_of(cat, name).records.len() <= 1,
    ensures
        ({
            let before = structure_of(cat, name).records;
            let after = structure_of(
                store_object(cat, name, entries, now, WritePolicy::UpsertSingleton),
                name,
            ).records;
            &&& after.len() == 1
            &&& after[0].timestamp == now
            &&& after[0].cells == if before.len() == 0 {
                cells_map(entry_cells(entries))
            } else {
                before[0].cells.union_prefer_right(cells_map(entry_cells(entries)))
            }
        }),
{
    lemma_store_object_level(cat, name, entries, now, WritePolicy::UpsertSingleton);
}

pub proof fn lemma_rebuild_keys(
    cat: Seq<StructureV>,
    name: Seq<char>,
    columns: Seq<Seq<char>>,
    cells: Map<Seq<char>, CellV>,
)
    requires
        index_of(cat, name) >= 0,
    ensures
        forall|i: int|
            0 <= i < rebuild(cat, name, columns, cells).len() ==> cells.contains_key(
                #[trigger] rebuild(cat, name, columns, cells)[i].0,
            ),
    decreases columns.len(),
{
    if columns.len() > 0 {
        lemma_rebuild_keys(cat, name, columns.drop_last(), cells);
        let before = rebuild(cat, name, columns.drop_last(), cells);
        let all = rebuild(cat, name, columns, cells);
        assert forall|i: int| 0 <= i < all.len() implies cells.contains_key(#[trigger] all[i].0) by {
            if i < before.len() {
                assert(all[i] == before[i]);
            }
        }
    }
}

/// Reading an older record after the schema widened: once `first` and
/// then `second` are appended to a structure, rebuilding the record of
/// `first` yields no entry under a key that `first` lacks, even though
/// that key is now a column. The column is left out; nothing fails.
pub proof fn lemma_old_record_omits_new_columns(
    cat: Seq<StructureV>,
    name: Seq<char>,
    first: Seq<(Seq<char>, JValue)>,
    second: Seq<(Seq<char>, JValue)>,
    t1: int,
    t2: int,
    k: Seq<char>,
)
    requires
        forall|i: int| 0 <= i < first.len() ==> #[trigger] first[i].0 != k,
    ensures
        ({
            let after = store_object(
                store_object(cat, name, first, t1, WritePolicy::Append),
                name,
                second,
                t2,
                WritePolicy::Append,
            );
            let s = structure_of(after, name);
            let n = structure_of(cat, name).records.len();
            let rebuilt = rebuild(after, name, s.columns, s.records[n as int].cells);
            &&& index_of(after, name) >= 0
            &&& forall|i: int| 0 <= i < rebuilt.len() ==> (#[trigger] rebuilt[i]).0 != k
        }),
{
    let after = store_object(
        store_object(cat, name, first, t1, WritePolicy::Append),
        name,
        second,
        t2,
        WritePolicy::Append,
    );
    let s = structure_of(after, name);
    let n = structure_of(cat, name).records.len();
    lemma_schema_monotone(cat, name, first, second, t1, t2, WritePolicy::Append);
    lemma_index_of(after, name);
    if index_of(after, name) < 0 {
        assert(s.records.len() == 0);
    }
    let cells = s.records[n as int].cells;
    lemma_rebuild_keys(after, name, s.columns, cells);
    assert(!cells.contains_key(k));
}

pub proof fn lemma_recent_contains(records: Seq<RecordV>, cut: int, r: RecordV)
    ensures
        recent(records, cut).contains(r) <==> records.contains(r) && r.timestamp >= cut,
    decreases records.len(),
{
    if records.len() > 0 {
        let rest = records.drop_last();
        lemma_recent_contains(rest, cut, r);
        if rest.contains(r) {
            let k = choose|k: int| 0 <= k < rest.len() && rest[k] == r;
            assert(records[k] == r);
        }
        if records.contains(r) {
            let k = choose|k: int| 0 <= k < records.len() && records[k] == r;
            if k < records.len() - 1 {
                assert(rest[k] == r);
            }
        }
        let before = recent(rest, cut);
        if records.last().timestamp >= cut {
            if before.push(records.last()).contains(r) {
                let k = choose|k: int| 0 <= k < before.len() + 1 && before.push(records.last())[k] == r;
                if k < before.len() {
                    assert(before[k] == r);
                }
            }
            if before.contains(r) {
                let k = choose|k: int| 0 <= k < before.len() && before[k] == r;
                assert(before.push(records.last())[k] == r);
            }
            assert(before.push(records.last())[before.len() as int] == records.last());
        }
    }
}

/// A sweep removes, from each structure of the family of `root`, exactly
/// the records written before the cutoff: a record stays iff it was there
/// and is not older than the cutoff. Structures outside the family, and
/// every structure's name and columns, are left as they were.
pub proof fn lemma_sweep_exact(cat: Seq<StructureV>, root: Seq<char>, cut: int, i: int)
    requires
        0 <= i < cat.len(),
    ensures
        swept(cat, root, cut).len() == cat.len(),
        swept(cat, root, cut)[i].name == cat[i].name,
        swept(cat, root, cut)[i].columns == cat[i].columns,
        in_family(cat[i].name, root) ==> forall|r: RecordV|
            #[trigger] swept(cat, root, cut)[i].records.contains(r) <==> cat[i].records.contains(r)
                && r.timestamp >= cut,
        !in_family(cat[i].name, root) ==> swept(cat, root, cut)[i] == cat[i],
{
    if in_family(cat[i].name, root) {
        assert forall|r: RecordV|
            #[trigger] swept(cat, root, cut)[i].records.contains(r) <==> cat[i].records.contains(r)
                && r.timestamp >= cut by {
            lemma_recent_contains(cat[i].records, cut, r);
        }
    }
}

// ---------------------------------------------------------------------------
// Round trip.
// ---------------------------------------------------------------------------

/// Every object level of a document, with the structure it is stored in:
/// the document itself first, then the levels below each object-valued
/// entry, in entry order.
pub open spec fn levels(name: Seq<char>, entries: Seq<(Seq<char>, JValue)>) -> Seq<
    (Seq<char>, Seq<(Seq<char>, JValue)>),
>
    decreases entries, 1int,
{
    seq![(name, entries)] + child_levels(name, entries)
}

pub open spec fn child_levels(name: Seq<char>, entries: Seq<(Seq<char>, JValue)>) -> Seq<
    (Seq<char>, Seq<(Seq<char>, JValue)>),
>
    decreases entries, 0int,
{
    if entries.len() == 0 {
        Seq::empty()
    } else {
        let before = child_levels(name, entries.drop_last());
        match entries.last().1 {
            JValue::Object(sub) => before + levels(child_name(name, entries.last().0), sub),
            _ => before,
        }
    }
}

pub open spec fn level_names(ls: Seq<(Seq<char>, Seq<(Seq<char>, JValue)>)>) -> Seq<Seq<char>> {
    Seq::new(ls.len(), |i: int| ls[i].0)
}

/// The structure a level is held in after one store into a fresh catalog.
pub open spec fn expected(l: (Seq<char>, Seq<(Seq<char>, JValue)>), now: int) -> StructureV {
    StructureV {
        name: l.0,
        columns: entry_keys(l.1),
        records: seq![RecordV { timestamp: now, cells: cells_map(entry_cells(l.1)) }],
    }
}

pub open spec fn all_stored(
    cat: Seq<StructureV>,
    ls: Seq<(Seq<char>, Seq<(Seq<char>, JValue)>)>,
    now: int,
) -> bool {
    forall|i: int| 0 <= i < ls.len() ==> structure_of(cat, #[trigger] ls[i].0) == expected(ls[i], now)
}

pub open spec fn all_absent(cat: Seq<StructureV>, ls: Seq<(Seq<char>, Seq<(Seq<char>, JValue)>)>) -> bool {
    forall|i: int| 0 <= i < ls.len() ==> index_of(cat, #[trigger] ls[i].0) < 0
}

pub open spec fn all_keys_distinct(ls: Seq<(Seq<char>, Seq<(Seq<char>, JValue)>)>) -> bool {
    forall|i: int| 0 <= i < ls.len() ==> entry_keys(#[trigger] ls[i].1).no_duplicates()
}

/// What a document and a catalog need for a store and a load to give the
/// document back: each object level has distinct keys, the levels get
/// distinct structure names, and none of those structures exists yet.
pub open spec fn round_trip_ready(
    cat: Seq<StructureV>,
    name: Seq<char>,
    entries: Seq<(Seq<char>, JValue)>,
) -> bool {
    let ls = levels(name, entries);
    &&& all_keys_distinct(ls)
    &&& level_names(ls).no_duplicates()
    &&& all_absent(cat, ls)
}

pub proof fn lemma_widen_fresh(keys: Seq<Seq<char>>)
    requires
        keys.no_duplicates(),
    ensures
        widen(Seq::empty(), keys) == keys,
    decreases keys.len(),
{
    if keys.len() > 0 {
        lemma_widen_fresh(keys.drop_last());
        assert(keys.drop_last().push(keys.last()) =~= keys);
        if keys.drop_last().contains(keys.last()) {
            let k = choose|k: int| 0 <= k < keys.len() - 1 && keys.drop_last()[k] == keys.last();
            assert(keys[k] == keys[keys.len() - 1]);
        }
    }
}

pub proof fn lemma_level_names_concat(
    a: Seq<(Seq<char>, Seq<(Seq<char>, JValue)>)>,
    b: Seq<(Seq<char>, Seq<(Seq<char>, JValue)>)>,
)
    ensures
        level_names(a + b) == level_names(a) + level_names(b),
{
    assert(level_names(a + b) =~= level_names(a) + level_names(b));
}

/// After storing an object into a catalog where none of its structures
/// exist, each of its levels is held as `expected` says, and no other
/// structure changed.
pub proof fn lemma_store_fresh(
    cat: Seq<StructureV>,
    name: Seq<char>,
    entries: Seq<(Seq<char>, JValue)>,
    now: int,
    policy: WritePolicy,
)
    requires
        all_keys_distinct(levels(name, entries)),
        level_names(levels(name, entries)).no_duplicates(),
        forall|i: int|
            0 <= i < levels(name, entries).len() ==> structure_of(
                cat,
                #[trigger] levels(name, entries)[i].0,
            ) == empty_structure(levels(name, entries)[i].0),
    ensures
        all_stored(store_object(cat, name, entries, now, policy), levels(name, entries), now),
        forall|m: Seq<char>|
            !level_names(levels(name, entries)).contains(m) ==> #[trigger] structure_of(
                store_object(cat, name, entries, now, policy),
                m,
            ) == structure_of(cat, m),
    decreases entries, 1int,
{
    let ls = levels(name, entries);
    let cls = child_levels(name, entries);
    let fin = store_object(cat, name, entries, now, policy);
    let s = structure_of(cat, name);
    let put = StructureV {
        name,
        columns: widen(s.columns, entry_keys(entries)),
        records: write_records(s.records, cells_map(entry_cells(entries)), now, policy),
    };
    let wl = write_level(cat, name, entries, now, policy);
    assert(ls[0] == (name, entries));
    assert(level_names(ls)[0] == name);
    assert(s == empty_structure(name));
    assert(entry_keys(ls[0].1).no_duplicates());
    lemma_widen_fresh(entry_keys(entries));
    assert(put == expected((name, entries), now));
    assert forall|i: int| 0 <= i < cls.len() implies #[trigger] cls[i].0 != name by {
        assert(ls[i + 1] == cls[i]);
        assert(level_names(ls)[i + 1] == cls[i].0);
    }
    assert forall|m: Seq<char>| #![trigger structure_of(wl, m)] structure_of(wl, m) == if m == name {
        put
    } else {
        structure_of(cat, m)
    } by {
        lemma_put_structure(cat, put, m);
    }
    assert forall|i: int| 0 <= i < cls.len() implies structure_of(wl, #[trigger] cls[i].0)
        == empty_structure(cls[i].0) by {
        assert(ls[i + 1] == cls[i]);
    }
    assert forall|i: int| 0 <= i < cls.len() implies entry_keys(#[trigger] cls[i].1).no_duplicates() by {
        assert(ls[i + 1] == cls[i]);
    }
    assert(level_names(cls) =~= level_names(ls).skip(1));
    lemma_store_children_fresh(wl, name, entries, now, policy);
    assert(!level_names(cls).contains(name));
    assert forall|i: int| 0 <= i < ls.len() implies structure_of(fin, #[trigger] ls[i].0) == expected(
        ls[i],
        now,
    ) by {
        if i > 0 {
            assert(ls[i] == cls[i - 1]);
        }
    }
    assert forall|m: Seq<char>| !level_names(ls).contains(m) implies #[trigger] structure_of(fin, m)
        == structure_of(cat, m) by {
        assert(level_names(ls)[0] == name);
        if level_names(cls).contains(m) {
            let k = choose|k: int| 0 <= k < level_names(cls).len() && level_names(cls)[k] == m;
            assert(level_names(ls)[k + 1] == m);
        }
    }
}

/// The counterpart of `lemma_store_fresh` for the children of an object.
pub proof fn lemma_store_children_fresh(
    cat: Seq<StructureV>,
    name: Seq<char>,
    entries: Seq<(Seq<char>, JValue)>,
    now: int,
    policy: WritePolicy,
)
    requires
        all_keys_distinct(child_levels(name, entries)),
        level_names(child_levels(name, entries)).no_duplicates(),
        forall|i: int|
            0 <= i < child_levels(name, entries).len() ==> structure_of(
                cat,
                #[trigger] child_levels(name, entries)[i].0,
            ) == empty_structure(child_levels(name, entries)[i].0),
    ensures
        all_stored(store_children(cat, name, entries, now, policy), child_levels(name, entries), now),
        forall|m: Seq<char>|
            !level_names(child_levels(name, entries)).contains(m) ==> #[trigger] structure_of(
                store_children(cat, name, entries, now, policy),
                m,
            ) == structure_of(cat, m),
    decreases entries, 0int,
{
    if entries.len() > 0 {
        let rest = entries.drop_last();
        let ls1 = child_levels(name, rest);
        let ls = child_levels(name, entries);
        let before = store_children(cat, name, rest, now, policy);
        let fin = store_children(cat, name, entries, now, policy);
        match entries.last().1 {
            JValue::Object(sub) => {
                let ch = child_name(name, entries.last().0);
                let ls2 = levels(ch, sub);
                assert(ls == ls1 + ls2);
                lemma_level_names_concat(ls1, ls2);
                let names = level_names(ls);
                assert forall|i: int, j: int|
                    0 <= i < ls1.len() && 0 <= j < ls2.len() implies #[trigger] ls1[i].0
                    != #[trigger] ls2[j].0 by {
                    assert(names[i] == ls1[i].0);
                    assert(names[ls1.len() + j] == ls2[j].0);
                }
                assert forall|i: int| 0 <= i < ls1.len() implies structure_of(
                    cat,
                    #[trigger] ls1[i].0,
                ) == empty_structure(ls1[i].0) by {
                    assert(ls[i] == ls1[i]);
                }
                assert forall|i: int| 0 <= i < ls1.len() implies entry_keys(
                    #[trigger] ls1[i].1,
                ).no_duplicates() by {
                    assert(ls[i] == ls1[i]);
                }
                assert(level_names(ls1) =~= names.take(ls1.len() as int));
                lemma_store_children_fresh(cat, name, rest, now, policy);
                assert forall|j: int| 0 <= j < ls2.len() implies structure_of(
                    before,
                    #[trigger] ls2[j].0,
                ) == empty_structure(ls2[j].0) by {
                    assert(ls[ls1.len() + j] == ls2[j]);
                    if level_names(ls1).contains(ls2[j].0) {
                        let k = choose|k: int|
                            0 <= k < level_names(ls1).len() && level_names(ls1)[k] == ls2[j].0;
                        assert(ls1[k].0 == ls2[j].0);
                    }
                }
                assert forall|j: int| 0 <= j < ls2.len() implies entry_keys(
                    #[trigger] ls2[j].1,
                ).no_duplicates() by {
                    assert(ls[ls1.len() + j] == ls2[j]);
                }
                assert(level_names(ls2) =~= names.skip(ls1.len() as int));
                lemma_store_fresh(before, ch, sub, now, policy);
                assert forall|i: int| 0 <= i < ls.len() implies structure_of(fin, #[trigger] ls[i].0)
                    == expected(ls[i], now) by {
                    if i < ls1.len() {
                        assert(ls[i] == ls1[i]);
                        if level_names(ls2).contains(ls1[i].0) {
                            let k = choose|k: int|
                                0 <= k < level_names(ls2).len() && level_names(ls2)[k] == ls1[i].0;
                            assert(ls2[k].0 == ls1[i].0);
                        }
                    } else {
                        assert(ls[i] == ls2[i - ls1.len()]);
                    }
                }
                assert forall|m: Seq<char>| !level_names(ls).contains(m) implies #[trigger] structure_of(
                    fin,
                    m,
                ) == structure_of(cat, m) by {
                    if level_names(ls1).contains(m) {
                        let k = choose|k: int| 0 <= k < level_names(ls1).len() && level_names(ls1)[k] == m;
                        assert(names[k] == m);
                    }
                    if level_names(ls2).contains(m) {
                        let k = choose|k: int| 0 <= k < level_names(ls2).len() && level_names(ls2)[k] == m;
                        assert(names[ls1.len() + k] == m);
                    }
                }
            },
            _ => {
                assert(ls == ls1);
                lemma_store_children_fresh(cat, name, rest, now, policy);
            },
        }
    }
}

pub proof fn lemma_child_levels_include(name: Seq<char>, entries: Seq<(Seq<char>, JValue)>, j: int)
    requires
        0 <= j < entries.len(),
        entries[j].1 is Object,
    ensures
        forall|q: int|
            0 <= q < levels(child_name(name, entries[j].0), entries[j].1->Object_0).len()
                ==> child_levels(name, entries).contains(
                #[trigger] levels(child_name(name, entries[j].0), entries[j].1->Object_0)[q],
            ),
    decreases entries.len(),
{
    let l = levels(child_name(name, entries[j].0), entries[j].1->Object_0);
    let rest = entries.drop_last();
    let before = child_levels(name, rest);
    let all = child_levels(name, entries);
    if j == entries.len() - 1 {
        assert(all == before + l);
        assert forall|q: int| 0 <= q < l.len() implies all.contains(#[trigger] l[q]) by {
            assert(all[before.len() + q] == l[q]);
        }
    } else {
        assert(rest[j] == entries[j]);
        lemma_child_levels_include(name, rest, j);
        assert forall|q: int| 0 <= q < l.len() implies all.contains(#[trigger] l[q]) by {
            let p = choose|p: int| 0 <= p < before.len() && before[p] == l[q];
            match entries.last().1 {
                JValue::Object(sub) => {
                    assert(all[p] == before[p]);
                },
                _ => {},
            }
        }
    }
}

/// A catalog that holds every level of a document as `expected` says
/// gives the document back when loaded.
pub proof fn lemma_load_stored(
    cat: Seq<StructureV>,
    name: Seq<char>,
    entries: Seq<(Seq<char>, JValue)>,
    now: int,
)
    requires
        all_stored(cat, levels(name, entries), now),
        all_keys_distinct(levels(name, entries)),
    ensures
        load(cat, name) == JValue::Object(entries),
    decreases entries, 1int, 0int,
{
    let ls = levels(name, entries);
    assert(ls[0] == (name, entries));
    let s = structure_of(cat, name);
    assert(s == expected((name, entries), now));
    lemma_index_of(cat, name);
    assert(index_of(cat, name) >= 0);
    let rec = RecordV { timestamp: now, cells: cells_map(entry_cells(entries)) };
    assert(s.records.drop_last() =~= Seq::<RecordV>::empty());
    assert(latest(Seq::<RecordV>::empty()) is None);
    assert(latest(s.records.drop_last()) is None);
    assert(latest(s.records) == Some(rec));
    lemma_rebuild_stored(cat, name, entries, now, entries.len() as int);
    assert(entry_keys(entries).take(entries.len() as int) =~= entry_keys(entries));
    assert(entries.take(entries.len() as int) =~= entries);
}

pub proof fn lemma_rebuild_stored(
    cat: Seq<StructureV>,
    name: Seq<char>,
    entries: Seq<(Seq<char>, JValue)>,
    now: int,
    j: int,
)
    requires
        all_stored(cat, levels(name, entries), now),
        all_keys_distinct(levels(name, entries)),
        index_of(cat, name) >= 0,
        0 <= j <= entries.len(),
    ensures
        rebuild(cat, name, entry_keys(entries).take(j), cells_map(entry_cells(entries)))
            == entries.take(j),
    decreases entries, 0int, j,
{
    let keys = entry_keys(entries);
    let cells = cells_map(entry_cells(entries));
    let ls = levels(name, entries);
    if j == 0 {
        assert(keys.take(0) =~= Seq::<Seq<char>>::empty());
        assert(entries.take(0) =~= Seq::<(Seq<char>, JValue)>::empty());
    } else {
        lemma_rebuild_stored(cat, name, entries, now, j - 1);
        let cols = keys.take(j);
        assert(cols.drop_last() =~= keys.take(j - 1));
        let (k, v) = entries[j - 1];
        assert(cols.last() == k);
        assert(ls[0] == (name, entries));
        assert(entry_keys(ls[0].1).no_duplicates());
        assert(keys.no_duplicates());
        assert forall|l: int| j - 1 < l < entry_cells(entries).len() implies #[trigger] entry_cells(
            entries,
        )[l].0 != entry_cells(entries)[j - 1].0 by {
            assert(keys[l] == entry_cells(entries)[l].0);
            assert(keys[j - 1] == entry_cells(entries)[j - 1].0);
        }
        lemma_cells_map_last(entry_cells(entries), j - 1);
        assert(cells.contains_key(k));
        assert(cells[k] == encode(v));
        let shown = match v {
            JValue::Object(sub) => {
                let ch = child_name(name, k);
                let l = levels(ch, sub);
                lemma_child_levels_include(name, entries, j - 1);
                assert forall|q: int| 0 <= q < l.len() implies structure_of(cat, #[trigger] l[q].0)
                    == expected(l[q], now) by {
                    let cl = child_levels(name, entries);
                    assert(cl.contains(l[q]));
                    let p = choose|p: int| 0 <= p < cl.len() && cl[p] == l[q];
                    assert(ls[p + 1] == cl[p]);
                }
                assert forall|q: int| 0 <= q < l.len() implies entry_keys(
                    #[trigger] l[q].1,
                ).no_duplicates() by {
                    let cl = child_levels(name, entries);
                    assert(cl.contains(l[q]));
                    let p = choose|p: int| 0 <= p < cl.len() && cl[p] == l[q];
                    assert(ls[p + 1] == cl[p]);
                }
                assert(decreases_to!(entries => entries[j - 1]));
                assert(decreases_to!(entries[j - 1] => entries[j - 1].1));
                assert(decreases_to!(entries[j - 1].1 => entries[j - 1].1->Object_0));
                lemma_load_stored(cat, ch, sub, now);
                load(cat, ch)
            },
            _ => decode(encode(v)),
        };
        assert(shown == v);
        assert(entries.take(j) =~= entries.take(j - 1).push((k, v)));
    }
}

/// Storing a document and loading it back gives the document unchanged:
/// every scalar, array and nested object returns as it was, with the keys
/// in their order. This holds for a store into a catalog where none of the
/// document's structures exist yet, when each object level has distinct
/// keys and the levels get distinct structure names (two keys such as `a`
/// holding `{"b": ..}` and `a_b` would share the structure `name_a_b`).
pub proof fn lemma_round_trip(
    cat: Seq<StructureV>,
    name: Seq<char>,
    entries: Seq<(Seq<char>, JValue)>,
    now: int,
    policy: WritePolicy,
)
    requires
        round_trip_ready(cat, name, entries),
    ensures
        load(store_object(cat, name, entries, now, policy), name) == JValue::Object(entries),
{
    let ls = levels(name, entries);
    assert forall|i: int| 0 <= i < ls.len() implies structure_of(cat, #[trigger] ls[i].0)
        == empty_structure(ls[i].0) by {
        assert(index_of(cat, ls[i].0) < 0);
    }
    lemma_store_fresh(cat, name, entries, now, policy);
    lemma_load_stored(store_object(cat, name, entries, now, policy), name, entries, now);
}

// ---------------------------------------------------------------------------
// What a search returns.
// ---------------------------------------------------------------------------

/// An object with an entry under `key` whose value reads as `value`.
pub open spec fn holds_attribute(doc: JValue, key: Seq<char>, value: Seq<char>) -> bool {
    match doc {
        JValue::Object(entries) => exists|i: int|
            0 <= i < entries.len() && (#[trigger] entries[i]).0 == key && cell_matches(
                encode(entries[i].1),
                value,
            ),
        _ => false,
    }
}

pub proof fn lemma_rebuild_has(
    cat: Seq<StructureV>,
    name: Seq<char>,
    columns: Seq<Seq<char>>,
    cells: Map<Seq<char>, CellV>,
    key: Seq<char>,
)
    requires
        index_of(cat, name) >= 0,
        columns.contains(key),
        cells.contains_key(key),
        !(cells[key] is Nested),
    ensures
        rebuild(cat, name, columns, cells).contains((key, decode(cells[key]))),
    decreases columns.len(),
{
    let all = rebuild(cat, name, columns, cells);
    if columns.last() == key {
        assert(all[all.len() - 1] == (key, decode(cells[key])));
    } else {
        let j = choose|j: int| 0 <= j < columns.len() && columns[j] == key;
        assert(columns.drop_last()[j] == key);
        lemma_rebuild_has(cat, name, columns.drop_last(), cells, key);
        let before = rebuild(cat, name, columns.drop_last(), cells);
        let q = choose|q: int| 0 <= q < before.len() && before[q] == (key, decode(cells[key]));
        assert(all[q] == before[q]);
    }
}

pub proof fn lemma_hits_hold(
    cat: Seq<StructureV>,
    s: StructureV,
    records: Seq<RecordV>,
    key: Seq<char>,
    value: Seq<char>,
    at: int,
)
    requires
        index_of(cat, s.name) >= 0,
        s.columns.contains(key),
    ensures
        forall|i: int|
            0 <= i < hits(cat, s, records, key, value, at).len() ==> holds_attribute(
                #[trigger] hits(cat, s, records, key, value, at)[i],
                key,
                value,
            ),
    decreases records.len(),
{
    if records.len() > 0 {
        lemma_hits_hold(cat, s, records.drop_last(), key, value, at);
        let before = hits(cat, s, records.drop_last(), key, value, at);
        let all = hits(cat, s, records, key, value, at);
        let r = records.last();
        assert forall|i: int| 0 <= i < all.len() implies holds_attribute(#[trigger] all[i], key, value) by {
            if i < before.len() {
                assert(all[i] == before[i]);
            } else {
                let c = r.cells[key];
                lemma_rebuild_has(cat, s.name, s.columns, r.cells, key);
                let es = rebuild(cat, s.name, s.columns, r.cells);
                let q = choose|q: int| 0 <= q < es.len() && es[q] == (key, decode(c));
                assert(encode(decode(c)) == c);
                assert(es[q].0 == key && cell_matches(encode(es[q].1), value));
            }
        }
    }
}

pub proof fn lemma_search_hits_hold(cat: Seq<StructureV>, key: Seq<char>, value: Seq<char>, n: int)
    requires
        n <= cat.len(),
    ensures
        forall|i: int|
            0 <= i < search_upto(cat, key, value, n).len() ==> holds_attribute(
                #[trigger] search_upto(cat, key, value, n)[i],
                key,
                value,
            ),
    decreases n,
{
    if n > 0 {
        lemma_search_hits_hold(cat, key, value, n - 1);
        let before = search_upto(cat, key, value, n - 1);
        let s = cat[n - 1];
        let extra = structure_hits(cat, s, key, value);
        lemma_index_of(cat, s.name);
        if s.columns.contains(key) {
            if let Some(at) = crate::relational::newest_match(s.records, key, value) {
                lemma_hits_hold(cat, s, s.records, key, value, at);
            }
        }
        let all = search_upto(cat, key, value, n);
        assert forall|i: int| 0 <= i < all.len() implies holds_attribute(#[trigger] all[i], key, value) by {
            if i < before.len() {
                assert(all[i] == before[i]);
            } else {
                assert(all[i] == extra[i - before.len()]);
            }
        }
    }
}

/// Every document a search returns is an object holding the searched key
/// with a value that reads as the searched value.
pub proof fn lemma_search_holds_attribute(cat: Seq<StructureV>, key: Seq<char>, value: Seq<char>)
    ensures
        forall|i: int|
            0 <= i < search(cat, key, value).len() ==> holds_attribute(
                #[trigger] search(cat, key, value)[i],
                key,
                value,
            ),
{
    lemma_search_hits_hold(cat, key, value, cat.len() as int);
}

// ---------------------------------------------------------------------------
// Idempotent schema creation.
// ---------------------------------------------------------------------------

/// Structure `name` exists and has every one of `keys` as a column.
pub open spec fn covers(cat: Seq<StructureV>, name: Seq<char>, keys: Seq<Seq<char>>) -> bool {
    index_of(cat, name) >= 0 && forall|j: int|
        0 <= j < keys.len() ==> structure_of(cat, name).columns.contains(#[trigger] keys[j])
}

pub open spec fn covers_all(cat: Seq<StructureV>, ls: Seq<(Seq<char>, Seq<(Seq<char>, JValue)>)>) -> bool {
    forall|i: int| 0 <= i < ls.len() ==> covers(cat, (#[trigger] ls[i]).0, entry_keys(ls[i].1))
}

/// Every structure of `a` still exists in `b`, with at least its columns.
pub open spec fn grows(a: Seq<StructureV>, b: Seq<StructureV>) -> bool {
    forall|m: Seq<char>|
        #![trigger index_of(b, m)]
        index_of(a, m) >= 0 ==> index_of(b, m) >= 0 && forall|c: Seq<char>|
            structure_of(a, m).columns.contains(c) ==> #[trigger] structure_of(b, m).columns.contains(c)
}

pub proof fn lemma_put_index(cat: Seq<StructureV>, s: StructureV, m: Seq<char>)
    ensures
        index_of(put_structure(cat, s), m) >= 0 <==> (m == s.name || index_of(cat, m) >= 0),
{
    let i = index_of(cat, s.name);
    lemma_index_of(cat, s.name);
    lemma_index_of(cat, m);
    if i >= 0 {
        lemma_index_of_same_names(cat.update(i, s), cat, m);
    } else {
        let u = cat.push(s);
        assert(u.drop_last() =~= cat);
    }
}

pub proof fn lemma_widen_level_grows(cat: Seq<StructureV>, name: Seq<char>, keys: Seq<Seq<char>>)
    ensures
        grows(cat, widen_level(cat, name, keys)),
        covers(widen_level(cat, name, keys), name, keys),
{
    let old_s = structure_of(cat, name);
    let s1 = StructureV { name, columns: widen(old_s.columns, keys), records: old_s.records };
    let w = widen_level(cat, name, keys);
    lemma_widen_contains(old_s.columns, keys);
    lemma_put_index(cat, s1, name);
    lemma_put_structure(cat, s1, name);
    assert forall|m: Seq<char>| #![trigger index_of(w, m)] index_of(cat, m) >= 0 implies index_of(w, m)
        >= 0 && forall|c: Seq<char>|
        structure_of(cat, m).columns.contains(c) ==> #[trigger] structure_of(w, m).columns.contains(
            c,
        ) by {
        lemma_put_index(cat, s1, m);
        lemma_put_structure(cat, s1, m);
    }
}

pub proof fn lemma_grows_trans(a: Seq<StructureV>, b: Seq<StructureV>, c: Seq<StructureV>)
    requires
        grows(a, b),
        grows(b, c),
    ensures
        grows(a, c),
{
    assert forall|m: Seq<char>| #![trigger index_of(c, m)] index_of(a, m) >= 0 implies index_of(c, m)
        >= 0 && forall|x: Seq<char>|
        structure_of(a, m).columns.contains(x) ==> #[trigger] structure_of(c, m).columns.contains(
            x,
        ) by {
        assert(index_of(b, m) >= 0);
        assert forall|x: Seq<char>| structure_of(a, m).columns.contains(x) implies #[trigger] structure_of(
            c,
            m,
        ).columns.contains(x) by {
            assert(structure_of(b, m).columns.contains(x));
        }
    }
}

pub proof fn lemma_grows_covers(
    a: Seq<StructureV>,
    b: Seq<StructureV>,
    ls: Seq<(Seq<char>, Seq<(Seq<char>, JValue)>)>,
)
    requires
        grows(a, b),
        covers_all(a, ls),
    ensures
        covers_all(b, ls),
{
    assert forall|i: int| 0 <= i < ls.len() implies covers(b, (#[trigger] ls[i]).0, entry_keys(ls[i].1)) by {
        let m = ls[i].0;
        let keys = entry_keys(ls[i].1);
        assert(covers(a, m, keys));
        assert(index_of(b, m) >= 0);
        assert forall|j: int| 0 <= j < keys.len() implies structure_of(b, m).columns.contains(
            #[trigger] keys[j],
        ) by {
            assert(structure_of(a, m).columns.contains(keys[j]));
        }
    }
}

/// A schema pass leaves every level of the document covered, and removes
/// no structure or column.
pub proof fn lemma_schema_object_covers(
    cat: Seq<StructureV>,
    name: Seq<char>,
    entries: Seq<(Seq<char>, JValue)>,
)
    ensures
        grows(cat, schema_object(cat, name, entries)),
        covers_all(schema_object(cat, name, entries), levels(name, entries)),
    decreases entries, 1int,
{
    let keys = entry_keys(entries);
    let w = widen_level(cat, name, keys);
    let fin = schema_object(cat, name, entries);
    lemma_widen_level_grows(cat, name, keys);
    lemma_schema_children_covers(w, name, entries);
    lemma_grows_trans(cat, w, fin);
    let ls = levels(name, entries);
    let cls = child_levels(name, entries);
    assert(covers_all(w, seq![(name, entries)])) by {
        assert(seq![(name, entries)][0] == (name, entries));
    }
    lemma_grows_covers(w, fin, seq![(name, entries)]);
    assert forall|i: int| 0 <= i < ls.len() implies covers(fin, (#[trigger] ls[i]).0, entry_keys(ls[i].1)) by {
        if i == 0 {
            assert(ls[0] == seq![(name, entries)][0]);
        } else {
            assert(ls[i] == cls[i - 1]);
        }
    }
}

pub proof fn lemma_schema_children_covers(
    cat: Seq<StructureV>,
    name: Seq<char>,
    entries: Seq<(Seq<char>, JValue)>,
)
    ensures
        grows(cat, schema_children(cat, name, entries)),
        covers_all(schema_children(cat, name, entries), child_levels(name, entries)),
    decreases entries, 0int,
{
    let fin = schema_children(cat, name, entries);
    if entries.len() == 0 {
        assert(grows(cat, cat));
    } else {
        let rest = entries.drop_last();
        let before = schema_children(cat, name, rest);
        lemma_schema_children_covers(cat, name, rest);
        let ls1 = child_levels(name, rest);
        match entries.last().1 {
            JValue::Object(sub) => {
                let ch = child_name(name, entries.last().0);
                let ls2 = levels(ch, sub);
                lemma_schema_object_covers(before, ch, sub);
                lemma_grows_trans(cat, before, fin);
                lemma_grows_covers(before, fin, ls1);
                let ls = child_levels(name, entries);
                assert(ls == ls1 + ls2);
                assert forall|i: int| 0 <= i < ls.len() implies covers(
                    fin,
                    (#[trigger] ls[i]).0,
                    entry_keys(ls[i].1),
                ) by {
                    if i < ls1.len() {
                        assert(ls[i] == ls1[i]);
                    } else {
                        assert(ls[i] == ls2[i - ls1.len()]);
                    }
                }
            },
            _ => {},
        }
    }
}

/// A schema pass over a catalog that already covers every level of the
/// document changes nothing.
pub proof fn lemma_schema_object_fixed(
    cat: Seq<StructureV>,
    name: Seq<char>,
    entries: Seq<(Seq<char>, JValue)>,
)
    requires
        covers_all(cat, levels(name, entries)),
    ensures
        schema_object(cat, name, entries) == cat,
    decreases entries, 1int,
{
    let ls = levels(name, entries);
    let keys = entry_keys(entries);
    assert(ls[0] == (name, entries));
    assert(covers(cat, name, keys));
    let i = index_of(cat, name);
    lemma_index_of(cat, name);
    let old_s = structure_of(cat, name);
    lemma_widen_absorbs(old_s.columns, keys);
    assert(cat.update(i, cat[i]) =~= cat);
    assert(widen_level(cat, name, keys) == cat);
    let cls = child_levels(name, entries);
    assert forall|k: int| 0 <= k < cls.len() implies covers(cat, (#[trigger] cls[k]).0, entry_keys(cls[k].1)) by {
        assert(ls[k + 1] == cls[k]);
    }
    lemma_schema_children_fixed(cat, name, entries);
}

pub proof fn lemma_schema_children_fixed(
    cat: Seq<StructureV>,
    name: Seq<char>,
    entries: Seq<(Seq<char>, JValue)>,
)
    requires
        covers_all(cat, child_levels(name, entries)),
    ensures
        schema_children(cat, name, entries) == cat,
    decreases entries, 0int,
{
    if entries.len() > 0 {
        let rest = entries.drop_last();
        let ls1 = child_levels(name, rest);
        let ls = child_levels(name, entries);
        match entries.last().1 {
            JValue::Object(sub) => {
                let ch = child_name(name, entries.last().0);
                let ls2 = levels(ch, sub);
                assert(ls == ls1 + ls2);
                assert forall|k: int| 0 <= k < ls1.len() implies covers(
                    cat,
                    (#[trigger] ls1[k]).0,
                    entry_keys(ls1[k].1),
                ) by {
                    assert(ls[k] == ls1[k]);
                }
                assert forall|k: int| 0 <= k < ls2.len() implies covers(
                    cat,
                    (#[trigger] ls2[k]).0,
                    entry_keys(ls2[k].1),
                ) by {
                    assert(ls[ls1.len() + k] == ls2[k]);
                }
                lemma_schema_children_fixed(cat, name, rest);
                lemma_schema_object_fixed(cat, ch, sub);
            },
            _ => {
                assert(ls == ls1);
                lemma_schema_children_fixed(cat, name, rest);
            },
        }
    }
}

/// Creating the structures of a document a second time, with nothing
/// written in between, changes nothing: each structure along every key
/// path is the one found the first time, and no structure or column is
/// added twice.
pub proof fn lemma_schema_object_idempotent(
    cat: Seq<StructureV>,
    name: Seq<char>,
    entries: Seq<(Seq<char>, JValue)>,
)
    ensures
        schema_object(schema_object(cat, name, entries), name, entries) == schema_object(
            cat,
            name,
            entries,
        ),
{
    lemma_schema_object_covers(cat, name, entries);
    lemma_schema_object_fixed(schema_object(cat, name, entries), name, entries);
}

} // verus!
