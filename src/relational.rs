use vstd::prelude::*;
use crate::json::{Json, JValue, model_of_items};

verus! {

/// What one column of a record holds. Scalars keep their kind, so a string
/// that looks like a number stays a string; a nested object is held in a
/// structure of its own and the cell only marks it.
pub enum Cell {
    Null,
    Bool(bool),
    Number(String),
    Text(String),
    List(Vec<Json>),
    Nested,
}

pub enum CellV {
    Null,
    Bool(bool),
    Number(Seq<char>),
    Text(Seq<char>),
    List(Seq<JValue>),
    Nested,
}

impl View for Cell {
    type V = CellV;

    open spec fn view(&self) -> CellV {
        match self {
            Cell::Null => CellV::Null,
            Cell::Bool(b) => CellV::Bool(*b),
            Cell::Number(t) => CellV::Number(t@),
            Cell::Text(s) => CellV::Text(s@),
            Cell::List(a) => CellV::List(model_of_items(a@)),
            Cell::Nested => CellV::Nested,
        }
    }
}

/// One persisted row: the time it was written and its cells by column.
pub struct Record {
    pub timestamp: i64,
    pub cells: Vec<(String, Cell)>,
}

pub struct RecordV {
    pub timestamp: int,
    pub cells: Map<Seq<char>, CellV>,
}

/// The map that an association list denotes; a later pair wins over an
/// earlier one with the same key.
pub open spec fn cells_map(s: Seq<(Seq<char>, CellV)>) -> Map<Seq<char>, CellV>
    decreases s.len(),
{
    if s.len() == 0 {
        Map::empty()
    } else {
        cells_map(s.drop_last()).insert(s.last().0, s.last().1)
    }
}

pub open spec fn cells_model(v: Seq<(String, Cell)>) -> Seq<(Seq<char>, CellV)> {
    Seq::new(v.len(), |i: int| (v[i].0@, v[i].1@))
}

impl View for Record {
    type V = RecordV;

    open spec fn view(&self) -> RecordV {
        RecordV { timestamp: self.timestamp as int, cells: cells_map(cells_model(self.cells@)) }
    }
}

/// A table of one nesting level of a document family.
pub struct Structure {
    pub name: String,
    pub columns: Vec<String>,
    pub records: Vec<Record>,
}

pub struct StructureV {
    pub name: Seq<char>,
    pub columns: Seq<Seq<char>>,
    pub records: Seq<RecordV>,
}

pub open spec fn strings_model(v: Seq<String>) -> Seq<Seq<char>> {
    Seq::new(v.len(), |i: int| v[i]@)
}

pub open spec fn records_model(v: Seq<Record>) -> Seq<RecordV> {
    Seq::new(v.len(), |i: int| v[i]@)
}

impl View for Structure {
    type V = StructureV;

    open spec fn view(&self) -> StructureV {
        StructureV {
            name: self.name@,
            columns: strings_model(self.columns@),
            records: records_model(self.records@),
        }
    }
}

/// How a write lands in a structure.
#[derive(Clone, Copy, Debug, PartialEq, Eq, Structural)]
pub enum WritePolicy {
    /// Every write adds a timestamped record; the latest one is read back.
    Append,
    /// A structure keeps one record, overwritten in place by each write.
    UpsertSingleton,
}

// ---------------------------------------------------------------------------
// The catalog: structures in the order they were created.
// ---------------------------------------------------------------------------

pub open spec fn structures_model(v: Seq<Structure>) -> Seq<StructureV> {
    Seq::new(v.len(), |i: int| v[i]@)
}

/// Index of the structure with the given name, or -1.
pub open spec fn index_of(cat: Seq<StructureV>, name: Seq<char>) -> int
    decreases cat.len(),
{
    if cat.len() == 0 {
        -1
    } else if cat.last().name == name {
        cat.len() - 1
    } else {
        index_of(cat.drop_last(), name)
    }
}

pub open spec fn names_unique(cat: Seq<StructureV>) -> bool {
    forall|i: int, j: int|
        0 <= i < cat.len() && 0 <= j < cat.len() && i != j ==> #[trigger] cat[i].name
            != #[trigger] cat[j].name
}

/// Each structure holds at most one record, as the upsert-singleton policy keeps it.
pub open spec fn single_records(cat: Seq<StructureV>) -> bool {
    forall|i: int| 0 <= i < cat.len() ==> (#[trigger] cat[i]).records.len() <= 1
}

pub open spec fn empty_structure(name: Seq<char>) -> StructureV {
    StructureV { name, columns: Seq::empty(), records: Seq::empty() }
}

/// The structure of that name, or an empty one if there is none.
pub open spec fn structure_of(cat: Seq<StructureV>, name: Seq<char>) -> StructureV {
    if index_of(cat, name) >= 0 {
        cat[index_of(cat, name)]
    } else {
        empty_structure(name)
    }
}

/// The catalog with structure `s` in place of the one of its name, or added
/// at the end if there was none.
pub open spec fn put_structure(cat: Seq<StructureV>, s: StructureV) -> Seq<StructureV> {
    if index_of(cat, s.name) >= 0 {
        cat.update(index_of(cat, s.name), s)
    } else {
        cat.push(s)
    }
}

/// Name of the structure that holds the object under `key` of structure `parent`.
pub open spec fn child_name(parent: Seq<char>, key: Seq<char>) -> Seq<char> {
    parent + seq!['_'] + key
}

/// Columns after widening by `keys`: each key not yet present is added at the end.
pub open spec fn widen(columns: Seq<Seq<char>>, keys: Seq<Seq<char>>) -> Seq<Seq<char>>
    decreases keys.len(),
{
    if keys.len() == 0 {
        columns
    } else {
        let w = widen(columns, keys.drop_last());
        if w.contains(keys.last()) {
            w
        } else {
            w.push(keys.last())
        }
    }
}

/// How a value is held in a cell.
pub open spec fn encode(v: JValue) -> CellV {
    match v {
        JValue::Null => CellV::Null,
        JValue::Bool(b) => CellV::Bool(b),
        JValue::Number(t) => CellV::Number(t),
        JValue::Str(s) => CellV::Text(s),
        JValue::Array(a) => CellV::List(a),
        JValue::Object(_) => CellV::Nested,
    }
}

pub open spec fn entry_keys(entries: Seq<(Seq<char>, JValue)>) -> Seq<Seq<char>> {
    Seq::new(entries.len(), |i: int| entries[i].0)
}

pub open spec fn entry_cells(entries: Seq<(Seq<char>, JValue)>) -> Seq<(Seq<char>, CellV)> {
    Seq::new(entries.len(), |i: int| (entries[i].0, encode(entries[i].1)))
}

/// The records of a structure after one write of `cells` at time `now`.
pub open spec fn write_records(
    records: Seq<RecordV>,
    cells: Map<Seq<char>, CellV>,
    now: int,
    policy: WritePolicy,
) -> Seq<RecordV> {
    match policy {
        WritePolicy::Append => records.push(RecordV { timestamp: now, cells }),
        WritePolicy::UpsertSingleton => if records.len() == 0 {
            seq![RecordV { timestamp: now, cells }]
        } else {
            records.update(
                0,
                RecordV { timestamp: now, cells: records[0].cells.union_prefer_right(cells) },
            )
        },
    }
}

/// The catalog after writing one object level into structure `name`.
pub open spec fn write_level(
    cat: Seq<StructureV>,
    name: Seq<char>,
    entries: Seq<(Seq<char>, JValue)>,
    now: int,
    policy: WritePolicy,
) -> Seq<StructureV> {
    let s = structure_of(cat, name);
    put_structure(
        cat,
        StructureV {
            name,
            columns: widen(s.columns, entry_keys(entries)),
            records: write_records(s.records, cells_map(entry_cells(entries)), now, policy),
        },
    )
}

/// The catalog after decomposing an object into structure `name` and,
/// for each object-valued entry, into the child structure of that key.
pub open spec fn store_object(
    cat: Seq<StructureV>,
    name: Seq<char>,
    entries: Seq<(Seq<char>, JValue)>,
    now: int,
    policy: WritePolicy,
) -> Seq<StructureV>
    decreases entries, 1int,
{
    store_children(write_level(cat, name, entries, now, policy), name, entries, now, policy)
}

/// The catalog after storing the object-valued entries, in order, each in
/// the child structure of its key.
pub open spec fn store_children(
    cat: Seq<StructureV>,
    name: Seq<char>,
    entries: Seq<(Seq<char>, JValue)>,
    now: int,
    policy: WritePolicy,
) -> Seq<StructureV>
    decreases entries, 0int,
{
    if entries.len() == 0 {
        cat
    } else {
        let before = store_children(cat, name, entries.drop_last(), now, policy);
        let (key, value) = entries.last();
        match value {
            JValue::Object(sub) => store_object(before, child_name(name, key), sub, now, policy),
            _ => before,
        }
    }
}

/// The catalog after making sure structure `name` has at least `keys` as
/// columns, its records untouched.
pub open spec fn widen_level(cat: Seq<StructureV>, name: Seq<char>, keys: Seq<Seq<char>>) -> Seq<
    StructureV,
> {
    let s = structure_of(cat, name);
    put_structure(cat, StructureV { name, columns: widen(s.columns, keys), records: s.records })
}

/// The catalog after creating or widening the structures of every object
/// level of a document, without writing any record.
pub open spec fn schema_object(
    cat: Seq<StructureV>,
    name: Seq<char>,
    entries: Seq<(Seq<char>, JValue)>,
) -> Seq<StructureV>
    decreases entries, 1int,
{
    schema_children(widen_level(cat, name, entry_keys(entries)), name, entries)
}

pub open spec fn schema_children(
    cat: Seq<StructureV>,
    name: Seq<char>,
    entries: Seq<(Seq<char>, JValue)>,
) -> Seq<StructureV>
    decreases entries, 0int,
{
    if entries.len() == 0 {
        cat
    } else {
        let before = schema_children(cat, name, entries.drop_last());
        let (key, value) = entries.last();
        match value {
            JValue::Object(sub) => schema_object(before, child_name(name, key), sub),
            _ => before,
        }
    }
}

// ---------------------------------------------------------------------------
// Reconstruction.
// ---------------------------------------------------------------------------

/// The longest structure name in the catalog.
pub open spec fn max_name_len(cat: Seq<StructureV>) -> nat
    decreases cat.len(),
{
    if cat.len() == 0 {
        0
    } else {
        let m = max_name_len(cat.drop_last());
        if cat.last().name.len() > m {
            cat.last().name.len()
        } else {
            m
        }
    }
}

/// How many levels reconstruction can still descend below `name`: each
/// level down has a strictly longer name, and no name exceeds the longest.
pub open spec fn depth_left(cat: Seq<StructureV>, name: Seq<char>) -> nat {
    if name.len() <= max_name_len(cat) {
        (max_name_len(cat) - name.len() + 1) as nat
    } else {
        0
    }
}

pub proof fn lemma_index_of(cat: Seq<StructureV>, name: Seq<char>)
    ensures
        -1 <= index_of(cat, name) < cat.len(),
        index_of(cat, name) >= 0 ==> cat[index_of(cat, name)].name == name,
        index_of(cat, name) >= 0 ==> name.len() <= max_name_len(cat),
        index_of(cat, name) < 0 ==> forall|i: int| 0 <= i < cat.len() ==> cat[i].name != name,
        forall|i: int| index_of(cat, name) < i < cat.len() ==> cat[i].name != name,
    decreases cat.len(),
{
    if cat.len() > 0 {
        lemma_index_of(cat.drop_last(), name);
        assert(forall|i: int| 0 <= i < cat.len() - 1 ==> cat.drop_last()[i] == cat[i]);
    }
}

/// The record that a read selects: the one with the greatest timestamp,
/// the later one among equals.
pub open spec fn latest(records: Seq<RecordV>) -> Option<RecordV>
    decreases records.len(),
{
    if records.len() == 0 {
        None
    } else {
        match latest(records.drop_last()) {
            Some(r) => if r.timestamp > records.last().timestamp {
                Some(r)
            } else {
                Some(records.last())
            },
            None => Some(records.last()),
        }
    }
}

/// The value a non-nested cell reads back as.
pub open spec fn decode(c: CellV) -> JValue {
    match c {
        CellV::Null => JValue::Null,
        CellV::Bool(b) => JValue::Bool(b),
        CellV::Number(t) => JValue::Number(t),
        CellV::Text(s) => JValue::Str(s),
        CellV::List(a) => JValue::Array(a),
        CellV::Nested => JValue::Object(Seq::empty()),
    }
}

/// The document reconstructed from structure `name`: an empty object when
/// the structure is missing or holds no record.
pub open spec fn load(cat: Seq<StructureV>, name: Seq<char>) -> JValue
    decreases depth_left(cat, name), 1int, 0int,
{
    let i = index_of(cat, name);
    if i < 0 {
        JValue::Object(Seq::empty())
    } else {
        match latest(cat[i].records) {
            Some(r) => JValue::Object(rebuild(cat, name, cat[i].columns, r.cells)),
            None => JValue::Object(Seq::empty()),
        }
    }
}

/// The entries rebuilt from a record's cells, in column order, skipping
/// columns the record has no cell for; a nested cell is read from the
/// child structure.
pub open spec fn rebuild(
    cat: Seq<StructureV>,
    name: Seq<char>,
    columns: Seq<Seq<char>>,
    cells: Map<Seq<char>, CellV>,
) -> Seq<(Seq<char>, JValue)>
    decreases depth_left(cat, name), 0int, columns.len(),
    when index_of(cat, name) >= 0
{
    if columns.len() == 0 {
        Seq::empty()
    } else {
        let before = rebuild(cat, name, columns.drop_last(), cells);
        let c = columns.last();
        if cells.contains_key(c) {
            match cells[c] {
                CellV::Nested => {
                    proof {
                        lemma_index_of(cat, name);
                    }
                    before.push((c, load(cat, child_name(name, c))))
                },
                other => before.push((c, decode(other))),
            }
        } else {
            before
        }
    }
}

// ---------------------------------------------------------------------------
// Attribute search.
// ---------------------------------------------------------------------------

/// Whether a cell holds the searched value, compared by its canonical text:
/// `null`, `true`, `false`, a number's digits, or the string itself. Arrays
/// and nested objects match no value.
pub open spec fn cell_matches(c: CellV, value: Seq<char>) -> bool {
    match c {
        CellV::Null => value == seq!['n', 'u', 'l', 'l'],
        CellV::Bool(b) => if b {
            value == seq!['t', 'r', 'u', 'e']
        } else {
            value == seq!['f', 'a', 'l', 's', 'e']
        },
        CellV::Number(t) => value == t,
        CellV::Text(s) => value == s,
        CellV::List(_) => false,
        CellV::Nested => false,
    }
}

pub open spec fn record_matches(r: RecordV, key: Seq<char>, value: Seq<char>) -> bool {
    r.cells.contains_key(key) && cell_matches(r.cells[key], value)
}

/// The greatest timestamp among the matching records, if any matches.
pub open spec fn newest_match(records: Seq<RecordV>, key: Seq<char>, value: Seq<char>) -> Option<
    int,
>
    decreases records.len(),
{
    if records.len() == 0 {
        None
    } else {
        let before = newest_match(records.drop_last(), key, value);
        let r = records.last();
        if record_matches(r, key, value) {
            match before {
                Some(t) => if t > r.timestamp {
                    Some(t)
                } else {
                    Some(r.timestamp)
                },
                None => Some(r.timestamp),
            }
        } else {
            before
        }
    }
}

/// The documents rebuilt from the matching records written at time `at`.
pub open spec fn hits(
    cat: Seq<StructureV>,
    s: StructureV,
    records: Seq<RecordV>,
    key: Seq<char>,
    value: Seq<char>,
    at: int,
) -> Seq<JValue>
    decreases records.len(),
{
    if records.len() == 0 {
        Seq::empty()
    } else {
        let before = hits(cat, s, records.drop_last(), key, value, at);
        let r = records.last();
        if record_matches(r, key, value) && r.timestamp == at {
            before.push(JValue::Object(rebuild(cat, s.name, s.columns, r.cells)))
        } else {
            before
        }
    }
}

/// What one structure contributes to a search: nothing unless it has a
/// column named `key`; else its newest matching records, rebuilt.
pub open spec fn structure_hits(
    cat: Seq<StructureV>,
    s: StructureV,
    key: Seq<char>,
    value: Seq<char>,
) -> Seq<JValue> {
    if s.columns.contains(key) {
        match newest_match(s.records, key, value) {
            Some(at) => hits(cat, s, s.records, key, value, at),
            None => Seq::empty(),
        }
    } else {
        Seq::empty()
    }
}

/// The hits of the first `n` structures, in catalog order.
pub open spec fn search_upto(cat: Seq<StructureV>, key: Seq<char>, value: Seq<char>, n: int) -> Seq<
    JValue,
>
    decreases n,
{
    if n <= 0 {
        Seq::empty()
    } else {
        search_upto(cat, key, value, n - 1) + structure_hits(cat, cat[n - 1], key, value)
    }
}

pub open spec fn search(cat: Seq<StructureV>, key: Seq<char>, value: Seq<char>) -> Seq<JValue> {
    search_upto(cat, key, value, cat.len() as int)
}

// ---------------------------------------------------------------------------
// Retention.
// ---------------------------------------------------------------------------

/// A structure belongs to the family of `root` when it is `root` itself or
/// its name starts with `root_`.
pub open spec fn in_family(name: Seq<char>, root: Seq<char>) -> bool {
    name == root || (root + seq!['_']).is_prefix_of(name)
}

/// The records written at or after `cutoff`, in their order.
pub open spec fn recent(records: Seq<RecordV>, cutoff: int) -> Seq<RecordV>
    decreases records.len(),
{
    if records.len() == 0 {
        Seq::empty()
    } else if records.last().timestamp >= cutoff {
        recent(records.drop_last(), cutoff).push(records.last())
    } else {
        recent(records.drop_last(), cutoff)
    }
}

pub proof fn lemma_recent_len(records: Seq<RecordV>, cutoff: int)
    ensures
        recent(records, cutoff).len() <= records.len(),
    decreases records.len(),
{
    if records.len() > 0 {
        lemma_recent_len(records.drop_last(), cutoff);
    }
}

/// The catalog after removing, from every structure of the family of
/// `root`, the records written before `cutoff`.
pub open spec fn swept(cat: Seq<StructureV>, root: Seq<char>, cutoff: int) -> Seq<StructureV> {
    Seq::new(
        cat.len(),
        |i: int|
            if in_family(cat[i].name, root) {
                StructureV {
                    name: cat[i].name,
                    columns: cat[i].columns,
                    records: recent(cat[i].records, cutoff),
                }
            } else {
                cat[i]
            },
    )
}

/// The names of the structures below `root`, those named `root_...`, in
/// catalog order.
pub open spec fn children_of(cat: Seq<StructureV>, root: Seq<char>) -> Seq<Seq<char>>
    decreases cat.len(),
{
    if cat.len() == 0 {
        Seq::empty()
    } else if (root + seq!['_']).is_prefix_of(cat.last().name) {
        children_of(cat.drop_last(), root).push(cat.last().name)
    } else {
        children_of(cat.drop_last(), root)
    }
}

/// The structure a store without an explicit name writes to.
pub open spec fn root_name() -> Seq<char> {
    seq!['r', 'o', 'o', 't']
}

/// How many days a write keeps of its structure family's history.
pub open spec fn retention_days() -> int {
    10
}

pub open spec fn seconds_per_day() -> int {
    86400
}

/// Records older than this are removed by a sweep of `max_age_days` at `now`.
pub open spec fn cutoff(now: int, max_age_days: int) -> int {
    now - max_age_days * seconds_per_day()
}

} // verus!
