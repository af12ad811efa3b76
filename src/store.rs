use vstd::prelude::*;
use crate::json::{
    Json, JValue, lemma_model_of_entries, lemma_model_of_items, lemma_model_of_items_append,
    model_of, model_of_entries, model_of_items,
};
use crate::error::StoreError;
use crate::relational::{
    Cell, CellV, Record, Structure, StructureV, WritePolicy, cells_map, cells_model, child_name,
    encode, entry_cells, entry_keys, index_of, lemma_index_of, names_unique, records_model,
    store_children, store_object, strings_model, structures_model, widen, write_level,
    write_records, RecordV, latest, decode, load, rebuild, depth_left, in_family, recent, swept,
    cutoff, cell_matches, record_matches, newest_match, hits, structure_hits, search_upto, search,
    children_of, root_name, retention_days, single_records, structure_of, put_structure, schema_object, schema_children,
    widen_level, max_name_len,
};

verus! {

/// Builds the name of the child structure of `parent` for `key`.
pub fn child_structure_name(parent: &String, key: &String) -> (r: String)
    ensures
        r@ == child_name(parent@, key@),
{
    let mut r = parent.clone();
    r.append("_");
    r.append(key.as_str());
    proof {
        reveal_strlit("_");
    }
    r
}

/// Whether `columns` holds `key`.
fn has_column(columns: &Vec<String>, key: &String) -> (r: bool)
    ensures
        r == strings_model(columns@).contains(key@),
{
    let ghost m = strings_model(columns@);
    let mut j: usize = 0;
    while j < columns.len()
        invariant
            j <= columns.len(),
            m == strings_model(columns@),
            forall|k: int| 0 <= k < j ==> m[k] != key@,
        decreases columns.len() - j,
    {
        if columns[j] == *key {
            assert(m[j as int] == key@);
            return true;
        }
        j += 1;
    }
    false
}

/// Adds, in order, each of `keys` that `columns` does not hold yet.
fn widen_columns(columns: &mut Vec<String>, keys: &Vec<String>)
    ensures
        strings_model(final(columns)@) == widen(strings_model(old(columns)@), strings_model(keys@)),
{
    let ghost start = strings_model(columns@);
    let ghost km = strings_model(keys@);
    assert(km.take(0) =~= Seq::<Seq<char>>::empty());
    let mut i: usize = 0;
    while i < keys.len()
        invariant
            i <= keys.len(),
            km == strings_model(keys@),
            strings_model(columns@) == widen(start, km.take(i as int)),
        decreases keys.len() - i,
    {
        let key = &keys[i];
        let present = has_column(columns, key);
        proof {
            assert(km.take(i + 1).drop_last() =~= km.take(i as int));
            assert(km.take(i + 1).last() == key@);
        }
        if !present {
            columns.push(key.clone());
            assert(strings_model(columns@) =~= widen(start, km.take(i as int)).push(key@));
        }
        i += 1;
    }
    assert(km.take(keys.len() as int) =~= km);
}

/// The keys of one object level, in entry order.
fn entry_key_list(entries: &Vec<(String, Json)>) -> (r: Vec<String>)
    ensures
        strings_model(r@) == entry_keys(model_of_entries(entries@)),
{
    proof {
        lemma_model_of_entries(entries@);
    }
    let mut out: Vec<String> = Vec::new();
    let mut i: usize = 0;
    while i < entries.len()
        invariant
            i <= entries.len(),
            out@.len() == i,
            model_of_entries(entries@).len() == entries.len(),
            forall|k: int|
                0 <= k < entries.len() ==> #[trigger] model_of_entries(entries@)[k].0
                    == entries@[k].0@,
            forall|k: int| 0 <= k < i ==> #[trigger] out@[k]@ == entries@[k].0@,
        decreases entries.len() - i,
    {
        out.push(entries[i].0.clone());
        i += 1;
    }
    assert(strings_model(out@) =~= entry_keys(model_of_entries(entries@)));
    out
}

/// The cell that holds a value.
fn encode_value(v: Json) -> (r: Cell)
    ensures
        r@ == encode(v@),
{
    match v {
        Json::Null => Cell::Null,
        Json::Bool(b) => Cell::Bool(b),
        Json::Number(t) => Cell::Number(t),
        Json::Str(s) => Cell::Text(s),
        Json::Array(a) => Cell::List(a),
        Json::Object(_) => Cell::Nested,
    }
}

/// The cells of one object level, in entry order.
fn encode_entries(entries: &Vec<(String, Json)>) -> (r: Vec<(String, Cell)>)
    ensures
        cells_model(r@) == entry_cells(model_of_entries(entries@)),
{
    proof {
        lemma_model_of_entries(entries@);
    }
    let mut out: Vec<(String, Cell)> = Vec::new();
    let mut i: usize = 0;
    while i < entries.len()
        invariant
            i <= entries.len(),
            model_of_entries(entries@).len() == entries.len(),
            forall|k: int|
                0 <= k < entries.len() ==> #[trigger] model_of_entries(entries@)[k] == (
                    entries@[k].0@,
                    model_of(entries@[k].1),
                ),
            out@.len() == i,
            cells_model(out@) == entry_cells(model_of_entries(entries@)).take(i as int),
        decreases entries.len() - i,
    {
        let c = encode_value(entries[i].1.copy());
        out.push((entries[i].0.clone(), c));
        assert(model_of_entries(entries@)[i as int] == (entries@[i as int].0@, model_of(
            entries@[i as int].1,
        )));
        assert(cells_model(out@) =~= entry_cells(model_of_entries(entries@)).take(i + 1));
        i += 1;
    }
    assert(entry_cells(model_of_entries(entries@)).take(entries.len() as int) =~= entry_cells(
        model_of_entries(entries@),
    ));
    out
}

pub proof fn lemma_cells_map_update(
    s: Seq<(Seq<char>, CellV)>,
    j: int,
    key: Seq<char>,
    v: CellV,
)
    requires
        0 <= j < s.len(),
        s[j].0 == key,
        forall|l: int| j < l < s.len() ==> s[l].0 != key,
    ensures
        cells_map(s.update(j, (key, v))) == cells_map(s).insert(key, v),
    decreases s.len(),
{
    let t = s.update(j, (key, v));
    if j == s.len() - 1 {
        assert(t.drop_last() =~= s.drop_last());
        assert(cells_map(t) =~= cells_map(s).insert(key, v));
    } else {
        lemma_cells_map_update(s.drop_last(), j, key, v);
        assert(t.drop_last() =~= s.drop_last().update(j, (key, v)));
        assert(cells_map(t) =~= cells_map(s).insert(key, v));
    }
}

pub proof fn lemma_cells_map_absent(s: Seq<(Seq<char>, CellV)>, key: Seq<char>)
    requires
        forall|l: int| 0 <= l < s.len() ==> s[l].0 != key,
    ensures
        !cells_map(s).contains_key(key),
    decreases s.len(),
{
    if s.len() > 0 {
        lemma_cells_map_absent(s.drop_last(), key);
    }
}

pub proof fn lemma_cells_map_last(s: Seq<(Seq<char>, CellV)>, j: int)
    requires
        0 <= j < s.len(),
        forall|l: int| j < l < s.len() ==> s[l].0 != s[j].0,
    ensures
        cells_map(s).contains_key(s[j].0),
        cells_map(s)[s[j].0] == s[j].1,
    decreases s.len(),
{
    if j < s.len() - 1 {
        lemma_cells_map_last(s.drop_last(), j);
    }
}

/// Position of the last cell under `key`, which is the one the record's map shows.
fn find_cell(cells: &Vec<(String, Cell)>, key: &String) -> (r: Option<usize>)
    ensures
        match r {
            Some(j) => j < cells@.len() && cells@[j as int].0@ == key@ && forall|l: int|
                j < l < cells@.len() ==> cells@[l].0@ != key@,
            None => forall|l: int| 0 <= l < cells@.len() ==> cells@[l].0@ != key@,
        },
{
    let mut j = cells.len();
    while j > 0
        invariant
            j <= cells.len(),
            forall|l: int| j <= l < cells@.len() ==> cells@[l].0@ != key@,
        decreases j,
    {
        j -= 1;
        if cells[j].0 == *key {
            return Some(j);
        }
    }
    None
}

/// Sets the cell under `key`, replacing the one the map shows if there is one.
fn set_cell(cells: &mut Vec<(String, Cell)>, key: String, c: Cell)
    ensures
        cells_map(cells_model(final(cells)@)) == cells_map(cells_model(old(cells)@)).insert(
            key@,
            c@,
        ),
{
    let ghost k = key@;
    let ghost v = c@;
    match find_cell(cells, &key) {
        Some(j) => {
            let ghost before = cells_model(cells@);
            cells.set(j, (key, c));
            proof {
                lemma_cells_map_update(before, j as int, k, v);
                assert(cells_model(cells@) =~= before.update(j as int, (k, v)));
            }
        },
        None => {
            let ghost before = cells_model(cells@);
            cells.push((key, c));
            assert(cells_model(cells@).drop_last() =~= before);
        },
    }
}

/// Overwrites the cells of a record with those of one object level.
fn merge_cells(cells: &mut Vec<(String, Cell)>, entries: &Vec<(String, Json)>)
    ensures
        cells_map(cells_model(final(cells)@)) == cells_map(cells_model(old(cells)@)).union_prefer_right(
            cells_map(entry_cells(model_of_entries(entries@))),
        ),
{
    let ghost start = cells_map(cells_model(cells@));
    let ghost target = entry_cells(model_of_entries(entries@));
    proof {
        lemma_model_of_entries(entries@);
        assert(target.take(0) =~= Seq::<(Seq<char>, CellV)>::empty());
        assert(start.union_prefer_right(cells_map(target.take(0))) =~= start);
    }
    let mut i: usize = 0;
    while i < entries.len()
        invariant
            i <= entries.len(),
            target == entry_cells(model_of_entries(entries@)),
            model_of_entries(entries@).len() == entries.len(),
            forall|k: int|
                0 <= k < entries.len() ==> #[trigger] model_of_entries(entries@)[k] == (
                    entries@[k].0@,
                    model_of(entries@[k].1),
                ),
            cells_map(cells_model(cells@)) == start.union_prefer_right(
                cells_map(target.take(i as int)),
            ),
        decreases entries.len() - i,
    {
        let c = encode_value(entries[i].1.copy());
        set_cell(cells, entries[i].0.clone(), c);
        proof {
            assert(target.take(i + 1).drop_last() =~= target.take(i as int));
            assert(cells_map(cells_model(cells@)) =~= start.union_prefer_right(
                cells_map(target.take(i + 1)),
            ));
        }
        i += 1;
    }
    assert(target.take(entries.len() as int) =~= target);
}

/// Position of the record a read selects.
fn latest_index(records: &Vec<Record>) -> (r: Option<usize>)
    ensures
        match r {
            Some(j) => j < records@.len() && latest(records_model(records@)) == Some(
                records_model(records@)[j as int],
            ),
            None => latest(records_model(records@)) is None,
        },
{
    let ghost rm = records_model(records@);
    let mut best: Option<usize> = None;
    let mut i: usize = 0;
    assert(rm.take(0) =~= Seq::<RecordV>::empty());
    while i < records.len()
        invariant
            i <= records.len(),
            rm == records_model(records@),
            match best {
                Some(b) => b < i && latest(rm.take(i as int)) == Some(rm[b as int]),
                None => i == 0 && latest(rm.take(i as int)) is None,
            },
        decreases records.len() - i,
    {
        assert(rm.take(i + 1).drop_last() =~= rm.take(i as int));
        let take_new = match best {
            Some(b) => !(records[b].timestamp > records[i].timestamp),
            None => true,
        };
        if take_new {
            best = Some(i);
        }
        i += 1;
    }
    assert(rm.take(records.len() as int) =~= rm);
    best
}

/// The value a cell that is not nested reads back as.
fn decode_cell(c: &Cell) -> (r: Json)
    requires
        !(c is Nested),
    ensures
        r@ == decode(c@),
{
    match c {
        Cell::Null => Json::Null,
        Cell::Bool(b) => Json::Bool(*b),
        Cell::Number(t) => Json::Number(t.clone()),
        Cell::Text(s) => Json::Str(s.clone()),
        Cell::List(a) => {
            let mut out: Vec<Json> = Vec::new();
            let mut i: usize = 0;
            while i < a.len()
                invariant
                    i <= a.len(),
                    out@.len() == i,
                    forall|k: int| 0 <= k < i ==> #[trigger] model_of(out@[k]) == model_of(a@[k]),
                decreases a.len() - i,
            {
                out.push(a[i].copy());
                i += 1;
            }
            proof {
                lemma_model_of_items(out@);
                lemma_model_of_items(a@);
                assert(model_of_items(out@) =~= model_of_items(a@));
            }
            Json::Array(out)
        },
        Cell::Nested => Json::Null,
    }
}

/// Whether structure `name` belongs to the family of `root`.
pub fn in_family_of(name: &String, root: &String) -> (r: bool)
    ensures
        r == in_family(name@, root@),
{
    let n = name.as_str();
    let rt = root.as_str();
    let nl = n.unicode_len();
    let rl = rt.unicode_len();
    if nl < rl {
        assert(name@ != root@ && !(root@ + seq!['_']).is_prefix_of(name@));
        return false;
    }
    let mut i: usize = 0;
    while i < rl
        invariant
            i <= rl,
            rl == root@.len(),
            nl == name@.len(),
            rl <= nl,
            n@ == name@,
            rt@ == root@,
            forall|k: int| 0 <= k < i ==> name@[k] == root@[k],
        decreases rl - i,
    {
        if n.get_char(i) != rt.get_char(i) {
            assert(name@[i as int] != root@[i as int]);
            assert((root@ + seq!['_'])[i as int] == root@[i as int]);
            assert(name@ != root@ && !(root@ + seq!['_']).is_prefix_of(name@));
            return false;
        }
        i += 1;
    }
    if nl == rl {
        assert(name@ =~= root@);
        true
    } else {
        let r = n.get_char(rl) == '_';
        if r {
            assert((root@ + seq!['_']) =~= name@.subrange(0, rl + 1));
        } else {
            assert((root@ + seq!['_'])[rl as int] == '_');
            assert(name@ != root@);
        }
        r
    }
}

/// The records of `records` written at or after `cut`, in their order.
fn keep_recent(records: Vec<Record>, cut: i128) -> (r: Vec<Record>)
    ensures
        records_model(r@) == recent(records_model(records@), cut as int),
{
    let ghost all = records_model(records@);
    let mut rest = records;
    let mut kept: Vec<Record> = Vec::new();
    let ghost mut done: int = 0;
    assert(all.take(0) =~= Seq::<RecordV>::empty());
    assert(records_model(rest@) =~= all.skip(0));
    while rest.len() > 0
        invariant
            0 <= done <= all.len(),
            records_model(rest@) == all.skip(done),
            records_model(kept@) == recent(all.take(done), cut as int),
        decreases rest.len(),
    {
        assert(records_model(rest@).len() == rest@.len());
        assert(done < all.len());
        assert(records_model(rest@)[0] == rest@[0]@);
        assert(all.skip(done)[0] == all[done]);
        let ghost old_rest = rest@;
        let r = rest.remove(0);
        assert(forall|k: int|
            0 <= k < rest@.len() ==> #[trigger] records_model(rest@)[k] == records_model(old_rest)[k
                + 1]);
        assert(r@ == all[done]);
        assert(all.take(done + 1).drop_last() =~= all.take(done));
        if r.timestamp as i128 >= cut {
            kept.push(r);
            assert(records_model(kept@) =~= recent(all.take(done), cut as int).push(all[done]));
        }
        proof {
            done = done + 1;
        }
        assert(records_model(rest@) =~= all.skip(done));
    }
    assert(all.take(done) =~= all);
    kept
}

/// Whether a cell holds `value`, compared by canonical text.
fn cell_holds(c: &Cell, value: &String) -> (r: bool)
    ensures
        r == cell_matches(c@, value@),
{
    proof {
        reveal_strlit("null");
        reveal_strlit("true");
        reveal_strlit("false");
        assert("null"@ =~= seq!['n', 'u', 'l', 'l']);
        assert("true"@ =~= seq!['t', 'r', 'u', 'e']);
        assert("false"@ =~= seq!['f', 'a', 'l', 's', 'e']);
    }
    match c {
        Cell::Null => *value == String::from_str("null"),
        Cell::Bool(b) => if *b {
            *value == String::from_str("true")
        } else {
            *value == String::from_str("false")
        },
        Cell::Number(t) => *value == *t,
        Cell::Text(s) => *value == *s,
        Cell::List(_) => false,
        Cell::Nested => false,
    }
}

/// Whether a value, held in a cell, would hold `value`.
pub(crate) fn value_holds(v: &Json, value: &String) -> (r: bool)
    ensures
        r == cell_matches(encode(v@), value@),
{
    let c = encode_value(v.copy());
    cell_holds(&c, value)
}

/// Whether a record has a cell under `key` that holds `value`.
fn record_holds(r: &Record, key: &String, value: &String) -> (b: bool)
    ensures
        b == record_matches(r@, key@, value@),
{
    let ghost cm = cells_model(r.cells@);
    match find_cell(&r.cells, key) {
        None => {
            proof {
                lemma_cells_map_absent(cm, key@);
            }
            false
        },
        Some(c) => {
            proof {
                lemma_cells_map_last(cm, c as int);
            }
            cell_holds(&r.cells[c].1, value)
        },
    }
}

/// The greatest timestamp among the records that hold `value` under `key`.
fn newest_matching(records: &Vec<Record>, key: &String, value: &String) -> (r: Option<i64>)
    ensures
        match r {
            Some(t) => newest_match(records_model(records@), key@, value@) == Some(t as int),
            None => newest_match(records_model(records@), key@, value@) is None,
        },
{
    let ghost rm = records_model(records@);
    let mut best: Option<i64> = None;
    let mut i: usize = 0;
    assert(rm.take(0) =~= Seq::<RecordV>::empty());
    while i < records.len()
        invariant
            i <= records.len(),
            rm == records_model(records@),
            match best {
                Some(t) => newest_match(rm.take(i as int), key@, value@) == Some(t as int),
                None => newest_match(rm.take(i as int), key@, value@) is None,
            },
        decreases records.len() - i,
    {
        assert(rm.take(i + 1).drop_last() =~= rm.take(i as int));
        if record_holds(&records[i], key, value) {
            let t = records[i].timestamp;
            best = match best {
                Some(b) => if b > t {
                    Some(b)
                } else {
                    Some(t)
                },
                None => Some(t),
            };
        }
        i += 1;
    }
    assert(rm.take(records.len() as int) =~= rm);
    best
}

pub proof fn lemma_index_of_unique(cat: Seq<StructureV>, i: int)
    requires
        names_unique(cat),
        0 <= i < cat.len(),
    ensures
        index_of(cat, cat[i].name) == i,
{
    lemma_index_of(cat, cat[i].name);
}

/// The structure a store writes to: the given name, else `root`.
pub open spec fn name_or_root(name: Option<&String>) -> Seq<char> {
    match name {
        Some(n) => n@,
        None => root_name(),
    }
}

/// A document store on a relational substrate: one structure per object
/// level reached, created and widened as documents arrive.
pub struct RelationalStore {
    policy: WritePolicy,
    structures: Vec<Structure>,
}

impl RelationalStore {
    /// The structures, in the order they were created.
    pub closed spec fn catalog(&self) -> Seq<StructureV> {
        structures_model(self.structures@)
    }

    pub closed spec fn policy_spec(&self) -> WritePolicy {
        self.policy
    }

    /// Each structure name occurs once, and under the upsert-singleton
    /// policy each structure holds at most one record.
    pub open spec fn wf(&self) -> bool {
        &&& names_unique(self.catalog())
        &&& self.policy_spec() == WritePolicy::UpsertSingleton ==> single_records(self.catalog())
    }

    /// An empty store that writes with the given policy.
    pub fn new(policy: WritePolicy) -> (r: Self)
        ensures
            r.wf(),
            r.catalog() == Seq::<StructureV>::empty(),
            r.policy_spec() == policy,
    {
        let r = RelationalStore { policy, structures: Vec::new() };
        assert(r.catalog() =~= Seq::<StructureV>::empty());
        r
    }

    /// The write policy chosen at construction.
    pub fn policy(&self) -> (r: WritePolicy)
        ensures
            r == self.policy_spec(),
    {
        self.policy
    }

    /// Position of the structure of that name.
    pub fn find_structure(&self, name: &String) -> (r: Option<usize>)
        ensures
            match r {
                Some(i) => i as int == index_of(self.catalog(), name@) && i < self.catalog().len(),
                None => index_of(self.catalog(), name@) < 0,
            },
    {
        let ghost cat = self.catalog();
        proof {
            lemma_index_of(cat, name@);
        }
        let mut i = self.structures.len();
        while i > 0
            invariant
                i <= self.structures.len(),
                cat == self.catalog(),
                forall|j: int| i <= j < cat.len() ==> cat[j].name != name@,
            decreases i,
        {
            i -= 1;
            if self.structures[i].name == *name {
                assert(cat[i as int].name == name@);
                proof {
                    lemma_index_of(cat, name@);
                }
                return Some(i);
            }
        }
        None
    }

    /// Makes sure structure `name` exists with at least `columns`: creates
    /// it if missing, else adds each column it lacks at the end. No column
    /// is removed and no record changes.
    pub fn create_table_if_not_exists(&mut self, name: &String, columns: &Vec<String>)
        requires
            old(self).wf(),
        ensures
            final(self).wf(),
            final(self).policy_spec() == old(self).policy_spec(),
            final(self).catalog() == put_structure(
                old(self).catalog(),
                StructureV {
                    name: name@,
                    columns: widen(
                        structure_of(old(self).catalog(), name@).columns,
                        strings_model(columns@),
                    ),
                    records: structure_of(old(self).catalog(), name@).records,
                },
            ),
    {
        let ghost cat = self.catalog();
        let idx = self.find_structure(name);
        proof {
            lemma_index_of(cat, name@);
        }
        let mut s = match idx {
            Some(i) => self.structures.remove(i),
            None => Structure { name: name.clone(), columns: Vec::new(), records: Vec::new() },
        };
        assert(s@.records == structure_of(cat, name@).records);
        assert(s@.columns == structure_of(cat, name@).columns);
        assert(s@.name == name@);
        widen_columns(&mut s.columns, columns);
        let ghost new_s = s@;
        assert(new_s == StructureV {
            name: name@,
            columns: widen(structure_of(cat, name@).columns, strings_model(columns@)),
            records: structure_of(cat, name@).records,
        });
        match idx {
            Some(i) => {
                self.structures.insert(i, s);
                assert(self.catalog() =~= cat.update(i as int, new_s));
            },
            None => {
                self.structures.push(s);
                assert(self.catalog() =~= cat.push(new_s));
            },
        }
    }

    /// Creates or widens, without writing a record, the structure of every
    /// object level of `doc`: `name` for the document itself and
    /// `name_key` for the object under `key`, recursively. A value that is
    /// not an object needs no structure and leaves the store as it was.
    pub fn create_tables_recursive(&mut self, doc: &Json, name: &String)
        requires
            old(self).wf(),
        ensures
            final(self).wf(),
            final(self).policy_spec() == old(self).policy_spec(),
            match doc@ {
                JValue::Object(entries) => final(self).catalog() == schema_object(
                    old(self).catalog(),
                    name@,
                    entries,
                ),
                _ => final(self).catalog() == old(self).catalog(),
            },
        decreases doc,
    {
        if let Json::Object(entries) = doc {
            let ghost entries_m = model_of_entries(entries@);
            proof {
                lemma_model_of_entries(entries@);
            }
            let keys = entry_key_list(entries);
            self.create_table_if_not_exists(name, &keys);
            let ghost level = self.catalog();
            assert(level == widen_level(old(self).catalog(), name@, entry_keys(entries_m)));
            assert(entries_m.take(0) =~= Seq::<(Seq<char>, JValue)>::empty());
            let mut i: usize = 0;
            while i < entries.len()
                invariant
                    i <= entries.len(),
                    *doc == Json::Object(*entries),
                    self.wf(),
                    self.policy == old(self).policy,
                    entries_m == model_of_entries(entries@),
                    entries_m.len() == entries.len(),
                    forall|k: int|
                        0 <= k < entries.len() ==> #[trigger] entries_m[k] == (
                            entries@[k].0@,
                            model_of(entries@[k].1),
                        ),
                    self.catalog() == schema_children(level, name@, entries_m.take(i as int)),
                decreases entries.len() - i,
            {
                assert(entries_m.take(i + 1).drop_last() =~= entries_m.take(i as int));
                assert(entries_m.take(i + 1).last() == entries_m[i as int]);
                if let Json::Object(_) = &entries[i].1 {
                    let child = child_structure_name(name, &entries[i].0);
                    proof {
                        vstd::std_specs::vec::axiom_vec_index_decreases(*entries, i as int);
                        assert(decreases_to!(*doc => doc->Object_0));
                        assert(decreases_to!(*doc => entries[i as int]));
                    }
                    self.create_tables_recursive(&entries[i].1, &child);
                }
                i += 1;
            }
            assert(entries_m.take(entries.len() as int) =~= entries_m);
        }
    }

    /// Writes one object level into structure `name`, creating or widening it.
    fn write_level(&mut self, name: &String, entries: &Vec<(String, Json)>, now: i64)
        requires
            old(self).wf(),
        ensures
            final(self).wf(),
            final(self).policy == old(self).policy,
            final(self).catalog() == write_level(
                old(self).catalog(),
                name@,
                model_of_entries(entries@),
                now as int,
                old(self).policy,
            ),
    {
        let ghost cat = self.catalog();
        let ghost entries_m = model_of_entries(entries@);
        let idx = self.find_structure(name);
        proof {
            lemma_index_of(cat, name@);
        }
        let mut s = match idx {
            Some(i) => self.structures.remove(i),
            None => Structure { name: name.clone(), columns: Vec::new(), records: Vec::new() },
        };
        let ghost old_s = s@;
        assert(old_s.columns == structure_of(cat, name@).columns);
        assert(old_s.records == structure_of(cat, name@).records);
        let keys = entry_key_list(entries);
        widen_columns(&mut s.columns, &keys);
        match self.policy {
            WritePolicy::Append => {
                let cells = encode_entries(entries);
                s.records.push(Record { timestamp: now, cells });
                assert(records_model(s.records@) =~= write_records(
                    old_s.records,
                    cells_map(entry_cells(entries_m)),
                    now as int,
                    self.policy,
                ));
            },
            WritePolicy::UpsertSingleton => {
                if s.records.len() == 0 {
                    let cells = encode_entries(entries);
                    s.records.push(Record { timestamp: now, cells });
                    assert(records_model(s.records@) =~= write_records(
                        old_s.records,
                        cells_map(entry_cells(entries_m)),
                        now as int,
                        self.policy,
                    ));
                } else {
                    let mut r = s.records.remove(0);
                    merge_cells(&mut r.cells, entries);
                    r.timestamp = now;
                    s.records.insert(0, r);
                    assert(records_model(s.records@) =~= write_records(
                        old_s.records,
                        cells_map(entry_cells(entries_m)),
                        now as int,
                        self.policy,
                    ));
                }
            },
        }
        let ghost new_s = s@;
        match idx {
            Some(i) => {
                self.structures.insert(i, s);
                assert(self.catalog() =~= cat.update(i as int, new_s));
            },
            None => {
                self.structures.push(s);
                assert(self.catalog() =~= cat.push(new_s));
            },
        }
    }

    /// Decomposes an object into structure `name` and its children.
    fn store_entries(&mut self, name: String, entries: &Vec<(String, Json)>, now: i64)
        requires
            old(self).wf(),
        ensures
            final(self).wf(),
            final(self).policy == old(self).policy,
            final(self).catalog() == store_object(
                old(self).catalog(),
                name@,
                model_of_entries(entries@),
                now as int,
                old(self).policy,
            ),
        decreases entries@,
    {
        let ghost entries_m = model_of_entries(entries@);
        proof {
            lemma_model_of_entries(entries@);
        }
        self.write_level(&name, entries, now);
        let ghost level = self.catalog();
        assert(entries_m.take(0) =~= Seq::<(Seq<char>, JValue)>::empty());
        let mut i: usize = 0;
        while i < entries.len()
            invariant
                i <= entries.len(),
                self.wf(),
                self.policy == old(self).policy,
                entries_m == model_of_entries(entries@),
                entries_m.len() == entries.len(),
                forall|k: int|
                    0 <= k < entries.len() ==> #[trigger] entries_m[k] == (
                        entries@[k].0@,
                        model_of(entries@[k].1),
                    ),
                self.catalog() == store_children(
                    level,
                    name@,
                    entries_m.take(i as int),
                    now as int,
                    self.policy,
                ),
            decreases entries.len() - i,
        {
            assert(entries_m.take(i + 1).drop_last() =~= entries_m.take(i as int));
            assert(entries_m.take(i + 1).last() == entries_m[i as int]);
            match &entries[i].1 {
                Json::Object(sub) => {
                    let child = child_structure_name(&name, &entries[i].0);
                    proof {
                        assert(decreases_to!(entries@ => entries@[i as int]));
                        assert(decreases_to!(entries@[i as int] => entries@[i as int].1));
                        assert(decreases_to!(entries@[i as int].1 => entries@[i as int].1->Object_0));
                        assert(decreases_to!(*sub => sub@));
                    }
                    self.store_entries(child, sub, now);
                },
                _ => {},
            }
            i += 1;
        }
        assert(entries_m.take(entries.len() as int) =~= entries_m);
    }

    /// Reconstructs the document held in structure `name` from its latest
    /// record; an empty object when there is none.
    pub fn query_json(&self, name: &String) -> (r: Json)
        requires
            self.wf(),
        ensures
            r@ == load(self.catalog(), name@),
        decreases depth_left(self.catalog(), name@), 1int,
    {
        match self.find_structure(name) {
            None => Json::Object(Vec::new()),
            Some(i) => {
                match latest_index(&self.structures[i].records) {
                    None => Json::Object(Vec::new()),
                    Some(j) => {
                        let entries = self.rebuild_record(name, i, j);
                        Json::Object(entries)
                    },
                }
            },
        }
    }

    /// The entries of record `j` of structure `i`, named `name`.
    fn rebuild_record(&self, name: &String, i: usize, j: usize) -> (r: Vec<(String, Json)>)
        requires
            self.wf(),
            i as int == index_of(self.catalog(), name@),
            0 <= i < self.structures@.len(),
            j < self.structures@[i as int].records@.len(),
        ensures
            model_of_entries(r@) == rebuild(
                self.catalog(),
                name@,
                self.catalog()[i as int].columns,
                self.catalog()[i as int].records[j as int].cells,
            ),
        decreases depth_left(self.catalog(), name@), 0int,
    {
        let ghost cat = self.catalog();
        let ghost cols = cat[i as int].columns;
        let ghost cells = cat[i as int].records[j as int].cells;
        let structure = &self.structures[i];
        let record = &structure.records[j];
        let ghost cm = cells_model(record.cells@);
        assert(cells == cells_map(cm));
        proof {
            lemma_index_of(cat, name@);
        }
        let mut out: Vec<(String, Json)> = Vec::new();
        let mut k: usize = 0;
        assert(cols.take(0) =~= Seq::<Seq<char>>::empty());
        proof {
            lemma_model_of_entries(out@);
        }
        while k < structure.columns.len()
            invariant
                k <= structure.columns.len(),
                cat == self.catalog(),
                self.wf(),
                i as int == index_of(cat, name@),
                name@.len() <= max_name_len(cat),
                structure == &self.structures@[i as int],
                record == &structure.records@[j as int],
                cols == strings_model(structure.columns@),
                cm == cells_model(record.cells@),
                cells == cells_map(cm),
                model_of_entries(out@) == rebuild(cat, name@, cols.take(k as int), cells),
            decreases structure.columns.len() - k,
        {
            let col = &structure.columns[k];
            assert(cols.take(k + 1).drop_last() =~= cols.take(k as int));
            assert(cols.take(k + 1).last() == col@);
            let ghost before = out@;
            match find_cell(&record.cells, col) {
                None => {
                    proof {
                        lemma_cells_map_absent(cm, col@);
                    }
                },
                Some(c) => {
                    proof {
                        lemma_cells_map_last(cm, c as int);
                    }
                    let cell = &record.cells[c].1;
                    let v = match cell {
                        Cell::Nested => {
                            let child = child_structure_name(name, col);
                            self.query_json(&child)
                        },
                        _ => decode_cell(cell),
                    };
                    out.push((col.clone(), v));
                    proof {
                        lemma_model_of_entries(before);
                        lemma_model_of_entries(out@);
                        assert(out@.drop_last() =~= before);
                    }
                },
            }
            k += 1;
        }
        assert(cols.take(structure.columns.len() as int) =~= cols);
        out
    }

    /// The documents rebuilt from the records of structure `i` that hold
    /// `value` under `key` and were written at time `at`.
    fn structure_hits_at(&self, i: usize, key: &String, value: &String, at: i64) -> (r: Vec<Json>)
        requires
            self.wf(),
            i < self.catalog().len(),
        ensures
            model_of_items(r@) == hits(
                self.catalog(),
                self.catalog()[i as int],
                self.catalog()[i as int].records,
                key@,
                value@,
                at as int,
            ),
    {
        let ghost cat = self.catalog();
        let ghost s = cat[i as int];
        let ghost rm = s.records;
        proof {
            lemma_index_of_unique(cat, i as int);
        }
        let structure = &self.structures[i];
        let mut out: Vec<Json> = Vec::new();
        let mut j: usize = 0;
        assert(rm.take(0) =~= Seq::<RecordV>::empty());
        proof {
            lemma_model_of_items(out@);
        }
        while j < structure.records.len()
            invariant
                j <= structure.records.len(),
                cat == self.catalog(),
                self.wf(),
                i < cat.len(),
                s == cat[i as int],
                index_of(cat, s.name) == i,
                structure == &self.structures@[i as int],
                rm == records_model(structure.records@),
                model_of_items(out@) == hits(cat, s, rm.take(j as int), key@, value@, at as int),
            decreases structure.records.len() - j,
        {
            assert(rm.take(j + 1).drop_last() =~= rm.take(j as int));
            let r = &structure.records[j];
            if record_holds(r, key, value) && r.timestamp == at {
                let ghost before = out@;
                let entries = self.rebuild_record(&structure.name, i, j);
                out.push(Json::Object(entries));
                proof {
                    lemma_model_of_items(before);
                    lemma_model_of_items(out@);
                    assert(out@.drop_last() =~= before);
                }
            }
            j += 1;
        }
        assert(rm.take(structure.records.len() as int) =~= rm);
        out
    }

    /// Every document that holds `value` under `key` at any level, rebuilt
    /// from the structure where the match is; per structure only the newest
    /// matching records count. An empty key and an empty value give no
    /// documents; one of them empty alone is refused.
    pub fn query_by_key_value(&self, key: &String, value: &String) -> (r: Result<
        Vec<Json>,
        StoreError,
    >)
        requires
            self.wf(),
        ensures
            key@.len() == 0 && value@.len() == 0 ==> r is Ok && r->Ok_0@.len() == 0,
            (key@.len() == 0) != (value@.len() == 0) ==> r == Err::<Vec<Json>, StoreError>(
                StoreError::ValidationError,
            ),
            key@.len() > 0 && value@.len() > 0 ==> r is Ok && model_of_items(r->Ok_0@) == search(
                self.catalog(),
                key@,
                value@,
            ),
    {
        let key_empty = key.as_str().unicode_len() == 0;
        let value_empty = value.as_str().unicode_len() == 0;
        if key_empty && value_empty {
            return Ok(Vec::new());
        }
        if key_empty || value_empty {
            return Err(StoreError::ValidationError);
        }
        let ghost cat = self.catalog();
        let mut out: Vec<Json> = Vec::new();
        let mut i: usize = 0;
        proof {
            lemma_model_of_items(out@);
        }
        while i < self.structures.len()
            invariant
                i <= self.structures.len(),
                cat == self.catalog(),
                self.wf(),
                model_of_items(out@) == search_upto(cat, key@, value@, i as int),
            decreases self.structures.len() - i,
        {
            let structure = &self.structures[i];
            let ghost before = out@;
            assert(cat[i as int] == structure@);
            let found: Vec<Json> = if has_column(&structure.columns, key) {
                match newest_matching(&structure.records, key, value) {
                    Some(at) => self.structure_hits_at(i, key, value, at),
                    None => Vec::new(),
                }
            } else {
                Vec::new()
            };
            proof {
                lemma_model_of_items(found@);
                assert(model_of_items(found@) == structure_hits(cat, cat[i as int], key@, value@));
            }
            let mut found = found;
            let ghost found_seq = found@;
            out.append(&mut found);
            proof {
                lemma_model_of_items_append(before, out@);
                assert(out@.subrange(before.len() as int, out@.len() as int) =~= found_seq);
                assert(model_of_items(out@) =~= search_upto(cat, key@, value@, i as int)
                    + structure_hits(cat, cat[i as int], key@, value@));
            }
            i += 1;
        }
        Ok(out)
    }

    /// Removes from structure `root` and every structure named `root_...`
    /// the records older than `max_age_days` days at time `now`.
    pub fn cleanup_old_data_with_age(&mut self, root: &String, max_age_days: i64, now: i64)
        requires
            old(self).wf(),
        ensures
            final(self).wf(),
            final(self).policy_spec() == old(self).policy_spec(),
            final(self).catalog() == swept(
                old(self).catalog(),
                root@,
                cutoff(now as int, max_age_days as int),
            ),
    {
        let ghost cat = self.catalog();
        let cut: i128 = now as i128 - (max_age_days as i128) * 86400;
        let ghost target = swept(cat, root@, cut as int);
        let mut i: usize = 0;
        while i < self.structures.len()
            invariant
                i <= self.structures.len(),
                self.structures@.len() == cat.len(),
                self.policy == old(self).policy,
                cut as int == cutoff(now as int, max_age_days as int),
                target == swept(cat, root@, cut as int),
                forall|k: int| 0 <= k < i ==> #[trigger] self.catalog()[k] == target[k],
                forall|k: int| i <= k < cat.len() ==> #[trigger] self.catalog()[k] == cat[k],
            decreases self.structures.len() - i,
        {
            let ghost before = self.structures@;
            let ghost before_cat = self.catalog();
            assert(self.catalog()[i as int] == cat[i as int]);
            if in_family_of(&self.structures[i].name, root) {
                let s = self.structures.remove(i);
                let Structure { name, columns, records } = s;
                let kept = keep_recent(records, cut);
                let fresh = Structure { name, columns, records: kept };
                let ghost fresh_v = fresh@;
                assert(fresh_v == target[i as int]);
                self.structures.insert(i, fresh);
                assert(self.structures@ =~= before.update(i as int, fresh));
            }
            assert(self.catalog()[i as int] == target[i as int]);
            assert(forall|k: int|
                0 <= k < cat.len() && k != i ==> #[trigger] self.catalog()[k] == before_cat[k]);
            i += 1;
        }
        assert(self.catalog() =~= target);
        assert(forall|k: int| 0 <= k < cat.len() ==> #[trigger] target[k].name == cat[k].name);
        assert forall|k: int| 0 <= k < cat.len() implies (#[trigger] target[k]).records.len()
            <= cat[k].records.len() by {
            crate::relational::lemma_recent_len(cat[k].records, cut as int);
        }
    }

    /// Whether a structure of that name exists.
    pub fn has_structure(&self, name: &String) -> (r: bool)
        ensures
            r == (index_of(self.catalog(), name@) >= 0),
    {
        self.find_structure(name).is_some()
    }

    /// The columns of structure `name`, in the order they were added; none
    /// when it does not exist.
    pub fn columns_of(&self, name: &String) -> (r: Vec<String>)
        ensures
            strings_model(r@) == structure_of(self.catalog(), name@).columns,
    {
        match self.find_structure(name) {
            Some(i) => {
                let cols = &self.structures[i].columns;
                let mut out: Vec<String> = Vec::new();
                let mut k: usize = 0;
                while k < cols.len()
                    invariant
                        k <= cols.len(),
                        out@.len() == k,
                        forall|m: int| 0 <= m < k ==> #[trigger] out@[m]@ == cols@[m]@,
                    decreases cols.len() - k,
                {
                    out.push(cols[k].clone());
                    k += 1;
                }
                assert(strings_model(out@) =~= strings_model(cols@));
                out
            },
            None => {
                let out: Vec<String> = Vec::new();
                assert(strings_model(out@) =~= Seq::<Seq<char>>::empty());
                out
            },
        }
    }

    /// The document rebuilt from record `id` (counted from 1, in write
    /// order) of structure `name`; `None` when there is no such record.
    pub fn query_record(&self, name: &String, id: usize) -> (r: Option<Json>)
        requires
            self.wf(),
        ensures
            ({
                let cat = self.catalog();
                let i = index_of(cat, name@);
                if i >= 0 && 1 <= id <= cat[i].records.len() {
                    r matches Some(j) && j@ == JValue::Object(
                        rebuild(cat, name@, cat[i].columns, cat[i].records[id - 1].cells),
                    )
                } else {
                    r is None
                }
            }),
    {
        match self.find_structure(name) {
            Some(i) => {
                if 1 <= id && id <= self.structures[i].records.len() {
                    let entries = self.rebuild_record(name, i, id - 1);
                    Some(Json::Object(entries))
                } else {
                    None
                }
            },
            None => None,
        }
    }

    /// The number of records structure `name` holds; zero when it does not exist.
    pub fn record_count(&self, name: &String) -> (r: usize)
        ensures
            r == structure_of(self.catalog(), name@).records.len(),
    {
        match self.find_structure(name) {
            Some(i) => self.structures[i].records.len(),
            None => 0,
        }
    }

    /// The names of the structures below `root`, in catalog order.
    pub fn get_child_tables(&self, root: &String) -> (r: Vec<String>)
        ensures
            strings_model(r@) == children_of(self.catalog(), root@),
    {
        let ghost cat = self.catalog();
        let mut out: Vec<String> = Vec::new();
        let mut i: usize = 0;
        assert(cat.take(0) =~= Seq::<StructureV>::empty());
        assert(strings_model(out@) =~= Seq::<Seq<char>>::empty());
        while i < self.structures.len()
            invariant
                i <= self.structures.len(),
                cat == self.catalog(),
                strings_model(out@) == children_of(cat.take(i as int), root@),
            decreases self.structures.len() - i,
        {
            assert(cat.take(i + 1).drop_last() =~= cat.take(i as int));
            assert(cat[i as int] == self.structures@[i as int]@);
            let name = &self.structures[i].name;
            if in_family_of(name, root) && name.as_str().unicode_len() != root.as_str().unicode_len() {
                let ghost before = out@;
                out.push(name.clone());
                assert(strings_model(out@) =~= strings_model(before).push(name@));
            }
            proof {
                if (root@ + seq!['_']).is_prefix_of(name@) {
                    assert(name@.len() > root@.len());
                }
                if name@ == root@ {
                    assert(!(root@ + seq!['_']).is_prefix_of(name@));
                }
            }
            i += 1;
        }
        assert(cat.take(cat.len() as int) =~= cat);
        out
    }

    /// Sweeps the family of structure `name` (or `root` when no name is
    /// given) of records older than the default retention, then decomposes
    /// `doc` into it with `now` as the write time. A value that is not an
    /// object is refused and the store is left as it was.
    pub fn store_json(&mut self, doc: &Json, name: Option<&String>, now: i64) -> (r: Result<
        (),
        StoreError,
    >)
        requires
            old(self).wf(),
        ensures
            final(self).wf(),
            final(self).policy_spec() == old(self).policy_spec(),
            match doc@ {
                JValue::Object(entries) => r is Ok && final(self).catalog() == store_object(
                    swept(
                        old(self).catalog(),
                        name_or_root(name),
                        cutoff(now as int, retention_days()),
                    ),
                    name_or_root(name),
                    entries,
                    now as int,
                    old(self).policy_spec(),
                ),
                _ => r == Err::<(), StoreError>(StoreError::NotAnObject) && final(self).catalog()
                    == old(self).catalog(),
            },
    {
        let target = match name {
            Some(n) => n.clone(),
            None => {
                proof {
                    reveal_strlit("root");
                }
                let r = String::from_str("root");
                assert(r@ =~= root_name());
                r
            },
        };
        assert(target@ == name_or_root(name));
        match doc {
            Json::Object(_) => {
                self.cleanup_old_data(&target, now);
                self.store_json_at(doc, &target, now)
            },
            _ => Err(StoreError::NotAnObject),
        }
    }

    /// Removes from structure `root` and the structures below it the
    /// records older than the default retention, measured from `now`.
    pub fn cleanup_old_data(&mut self, root: &String, now: i64)
        requires
            old(self).wf(),
        ensures
            final(self).wf(),
            final(self).policy_spec() == old(self).policy_spec(),
            final(self).catalog() == swept(
                old(self).catalog(),
                root@,
                cutoff(now as int, retention_days()),
            ),
    {
        self.cleanup_old_data_with_age(root, 10, now);
    }

    /// Decomposes `doc` into structure `name` and the structures below it,
    /// with `now` as the write time. A value that is not an object is
    /// refused and the store is left as it was.
    pub fn store_json_at(&mut self, doc: &Json, name: &String, now: i64) -> (r: Result<(), StoreError>)
        requires
            old(self).wf(),
        ensures
            final(self).wf(),
            final(self).policy_spec() == old(self).policy_spec(),
            match doc@ {
                JValue::Object(entries) => r is Ok && final(self).catalog() == store_object(
                    old(self).catalog(),
                    name@,
                    entries,
                    now as int,
                    old(self).policy_spec(),
                ),
                _ => r == Err::<(), StoreError>(StoreError::NotAnObject) && final(self).catalog()
                    == old(self).catalog(),
            },
    {
        match doc {
            Json::Object(entries) => {
                self.store_entries(name.clone(), entries, now);
                Ok(())
            },
            _ => Err(StoreError::NotAnObject),
        }
    }
}

} // verus!
