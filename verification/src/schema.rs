//! The database schema as the diagram sees it: tables with their columns
//! and foreign keys, kept in name order.
use vstd::prelude::*;
use crate::text::{chars_lt, chars_of, char_count, dictionary_before, lemma_chars_lt_dictionary, flat_map, lemma_chars_lt_irreflexive, lemma_chars_lt_total, lemma_chars_lt_transitive, lemma_flat_map_push, push_char, str_eq, str_lt, views};

verus! {

#[derive(Debug, Clone, PartialEq, Eq)]
pub struct Column {
    pub name: String,
    pub data_type: String,
    pub not_null: bool,
    pub primary_key: bool,
}

#[derive(Debug, Clone, PartialEq, Eq)]
pub struct ForeignKey {
    pub from_column: String,
    pub to_table: String,
    pub to_column: String,
}

#[derive(Debug, Clone, Default)]
pub struct Table {
    pub name: String,
    pub columns: Vec<Column>,
    pub foreign_keys: Vec<ForeignKey>,
}

/// Some foreign key of `t` leaves from the column called `name`.
pub open spec fn is_fk_column(t: Table, name: Seq<char>) -> bool {
    exists|j: int| 0 <= j < t.foreign_keys.len() && (#[trigger] t.foreign_keys@[j]).from_column@ == name
}

/// `t` has a column that is neither part of its primary key nor the source
/// of one of its foreign keys.
pub open spec fn has_extra_column(t: Table) -> bool {
    exists|i: int|
        0 <= i < t.columns.len() && !(#[trigger] t.columns@[i]).primary_key && !is_fk_column(
            t,
            t.columns@[i].name@,
        )
}

/// A junction table links two distinct tables: it has exactly two foreign
/// keys, to different tables, and no column beyond its key and those two.
/// The pair is the two referenced tables, in the order of the keys.
pub open spec fn junction_pair(t: Table) -> Option<(Seq<char>, Seq<char>)> {
    if t.foreign_keys.len() != 2 || has_extra_column(t) || t.foreign_keys@[0].to_table@
        == t.foreign_keys@[1].to_table@ {
        None
    } else {
        Some((t.foreign_keys@[0].to_table@, t.foreign_keys@[1].to_table@))
    }
}

/// The key labels of a column: `PK` for a primary-key column, then `FK` for
/// the source of a foreign key.
pub open spec fn key_labels(t: Table, c: Column) -> Seq<Seq<char>> {
    (if c.primary_key {
        seq!["PK"@]
    } else {
        seq![]
    }) + (if is_fk_column(t, c.name@) {
        seq!["FK"@]
    } else {
        seq![]
    })
}

impl Table {
    /// The two tables that this table joins, when it is a junction table.
    pub fn junction_targets(&self) -> (r: Option<(String, String)>)
        ensures
            r is Some <==> junction_pair(*self) is Some,
            r matches Some((a, b)) ==> junction_pair(*self) == Some((a@, b@)),
    {
        if self.foreign_keys.len() != 2 {
            return None;
        }
        if self.has_extra() {
            return None;
        }
        let a = &self.foreign_keys[0].to_table;
        let b = &self.foreign_keys[1].to_table;
        if *a == *b {
            None
        } else {
            Some((a.clone(), b.clone()))
        }
    }

    /// The two foreign keys of a junction table.
    pub fn junction_foreign_keys(&self) -> (r: Option<(&ForeignKey, &ForeignKey)>)
        ensures
            r is Some <==> junction_pair(*self) is Some,
            r matches Some((a, b)) ==> *a == self.foreign_keys@[0] && *b == self.foreign_keys@[1],
    {
        if self.foreign_keys.len() != 2 {
            return None;
        }
        if self.has_extra() {
            return None;
        }
        if self.foreign_keys[0].to_table == self.foreign_keys[1].to_table {
            None
        } else {
            Some((&self.foreign_keys[0], &self.foreign_keys[1]))
        }
    }

    /// Whether a foreign key of this table leaves from the named column.
    pub fn is_fk_column(&self, name: &String) -> (r: bool)
        ensures
            r == is_fk_column(*self, name@),
    {
        let mut j: usize = 0;
        while j < self.foreign_keys.len()
            invariant
                j <= self.foreign_keys.len(),
                forall|k: int| 0 <= k < j ==> (#[trigger] self.foreign_keys@[k]).from_column@ != name@,
            decreases self.foreign_keys.len() - j,
        {
            if self.foreign_keys[j].from_column == *name {
                return true;
            }
            j = j + 1;
        }
        false
    }

    fn has_extra(&self) -> (r: bool)
        ensures
            r == has_extra_column(*self),
    {
        let mut i: usize = 0;
        while i < self.columns.len()
            invariant
                i <= self.columns.len(),
                forall|k: int|
                    0 <= k < i ==> (#[trigger] self.columns@[k]).primary_key || is_fk_column(
                        *self,
                        self.columns@[k].name@,
                    ),
            decreases self.columns.len() - i,
        {
            let c = &self.columns[i];
            if !c.primary_key && !self.is_fk_column(&c.name) {
                return true;
            }
            i = i + 1;
        }
        false
    }

    /// The key labels of one of this table's columns.
    pub fn column_key_labels(&self, c: &Column) -> (r: Vec<String>)
        ensures
            views(r@) == key_labels(*self, *c),
    {
        let mut r: Vec<String> = Vec::new();
        if c.primary_key {
            r.push(String::from_str("PK"));
        }
        if self.is_fk_column(&c.name) {
            r.push(String::from_str("FK"));
        }
        assert(views(r@) =~= key_labels(*self, *c));
        r
    }
}

/// The names of a list of tables strictly increase.
pub open spec fn names_sorted(ts: Seq<Table>) -> bool {
    forall|i: int, j: int| 0 <= i < j < ts.len() ==> chars_lt(#[trigger] ts[i].name@, #[trigger] ts[j].name@)
}

/// The tables of a schema (`Schema::tables` gives them `names_sorted`)
/// stand in dictionary order of their names, one per name.
pub proof fn lemma_tables_in_dictionary_order(ts: Seq<Table>)
    requires
        names_sorted(ts),
    ensures
        forall|i: int, j: int|
            0 <= i < j < ts.len() ==> dictionary_before(#[trigger] ts[i].name@, #[trigger] ts[j].name@),
{
    assert forall|i: int, j: int| 0 <= i < j < ts.len() implies dictionary_before(
        #[trigger] ts[i].name@,
        #[trigger] ts[j].name@,
    ) by {
        lemma_chars_lt_dictionary(ts[i].name@, ts[j].name@);
    }
}

/// A table is a junction table exactly when it has two foreign keys, to
/// two different tables, and each of its columns is a primary-key column
/// or the source of one of the two keys; it then joins the table of its
/// first key to the table of its second.
pub proof fn lemma_junction_pair_meaning(t: Table)
    ensures
        junction_pair(t) is Some <==> {
            &&& t.foreign_keys.len() == 2
            &&& t.foreign_keys@[0].to_table@ != t.foreign_keys@[1].to_table@
            &&& forall|i: int|
                0 <= i < t.columns.len() ==> (#[trigger] t.columns@[i]).primary_key || t.foreign_keys@[0].from_column@
                    == t.columns@[i].name@ || t.foreign_keys@[1].from_column@ == t.columns@[i].name@
        },
        junction_pair(t) is Some ==> junction_pair(t) == Some(
            (t.foreign_keys@[0].to_table@, t.foreign_keys@[1].to_table@),
        ),
{
    if t.foreign_keys.len() == 2 {
        if has_extra_column(t) {
            let i = choose|i: int|
                0 <= i < t.columns.len() && !(#[trigger] t.columns@[i]).primary_key && !is_fk_column(
                    t,
                    t.columns@[i].name@,
                );
            if t.foreign_keys@[0].from_column@ == t.columns@[i].name@ {
                assert(is_fk_column(t, t.columns@[i].name@));
            }
            if t.foreign_keys@[1].from_column@ == t.columns@[i].name@ {
                assert(is_fk_column(t, t.columns@[i].name@));
            }
        } else {
            assert forall|i: int| 0 <= i < t.columns.len() implies (#[trigger] t.columns@[i]).primary_key
                || t.foreign_keys@[0].from_column@ == t.columns@[i].name@ || t.foreign_keys@[1].from_column@
                == t.columns@[i].name@ by {
                if !t.columns@[i].primary_key {
                    assert(is_fk_column(t, t.columns@[i].name@));
                    let j = choose|j: int|
                        0 <= j < t.foreign_keys.len() && (#[trigger] t.foreign_keys@[j]).from_column@
                            == t.columns@[i].name@;
                }
            }
        }
    }
}

/// `i` is the first position of a table called `name`.
pub open spec fn first_named(ts: Seq<Table>, name: Seq<char>, i: int) -> bool {
    &&& 0 <= i < ts.len()
    &&& ts[i].name@ == name
    &&& forall|j: int| 0 <= j < i ==> (#[trigger] ts[j]).name@ != name
}

/// Some table of the list is called `name`.
pub open spec fn has_table(ts: Seq<Table>, name: Seq<char>) -> bool {
    exists|i: int| 0 <= i < ts.len() && (#[trigger] ts[i]).name@ == name
}

/// The position of the table called `name`, or -1.
pub open spec fn table_index(ts: Seq<Table>, name: Seq<char>) -> int {
    if exists|i: int| first_named(ts, name, i) {
        choose|i: int| first_named(ts, name, i)
    } else {
        -1
    }
}

/// The table called `name`.
pub open spec fn lookup(ts: Seq<Table>, name: Seq<char>) -> Option<Table> {
    if table_index(ts, name) >= 0 {
        Some(ts[table_index(ts, name)])
    } else {
        None
    }
}

pub proof fn lemma_first_named_unique(ts: Seq<Table>, name: Seq<char>, i: int, j: int)
    requires
        first_named(ts, name, i),
        first_named(ts, name, j),
    ensures
        i == j,
{
    if i < j {
        assert(ts[i].name@ != name);
    }
    if j < i {
        assert(ts[j].name@ != name);
    }
}

pub proof fn lemma_table_index(ts: Seq<Table>, name: Seq<char>, i: int)
    requires
        first_named(ts, name, i),
    ensures
        table_index(ts, name) == i,
        lookup(ts, name) == Some(ts[i]),
{
    let k = choose|k: int| first_named(ts, name, k);
    lemma_first_named_unique(ts, name, i, k);
}

pub proof fn lemma_table_index_none(ts: Seq<Table>, name: Seq<char>)
    requires
        forall|j: int| 0 <= j < ts.len() ==> (#[trigger] ts[j]).name@ != name,
    ensures
        table_index(ts, name) == -1,
        lookup(ts, name) is None,
        !has_table(ts, name),
{
}

pub proof fn lemma_has_table(ts: Seq<Table>, name: Seq<char>)
    ensures
        has_table(ts, name) <==> table_index(ts, name) >= 0,
        table_index(ts, name) >= 0 ==> first_named(ts, name, table_index(ts, name)),
    decreases ts.len(),
{
    if has_table(ts, name) {
        let i = choose|i: int| 0 <= i < ts.len() && (#[trigger] ts[i]).name@ == name;
        lemma_first_exists(ts, name, i);
        let k = choose|k: int| first_named(ts, name, k);
        lemma_table_index(ts, name, k);
    }
}

proof fn lemma_first_exists(ts: Seq<Table>, name: Seq<char>, i: int)
    requires
        0 <= i < ts.len(),
        ts[i].name@ == name,
    ensures
        exists|k: int| first_named(ts, name, k),
    decreases i,
{
    if forall|j: int| 0 <= j < i ==> (#[trigger] ts[j]).name@ != name {
        assert(first_named(ts, name, i));
    } else {
        let j = choose|j: int| 0 <= j < i && (#[trigger] ts[j]).name@ != name == false;
        lemma_first_exists(ts, name, j);
    }
}

/// Position at which a table called `name` goes into a sorted list that
/// holds none of that name.
pub open spec fn insert_point(ts: Seq<Table>, name: Seq<char>, k: int) -> bool {
    &&& 0 <= k <= ts.len()
    &&& forall|j: int| 0 <= j < k ==> chars_lt((#[trigger] ts[j]).name@, name)
    &&& forall|j: int| k <= j < ts.len() ==> chars_lt(name, (#[trigger] ts[j]).name@)
}

/// The list after `t` is stored under its name: it replaces the table of that
/// name, or goes in at its place in name order.
pub open spec fn spec_insert(ts: Seq<Table>, t: Table) -> Seq<Table> {
    if has_table(ts, t.name@) {
        ts.update(table_index(ts, t.name@), t)
    } else {
        ts.insert(choose|k: int| insert_point(ts, t.name@, k), t)
    }
}

/// A sorted list without a table of some name has a place for it.
pub proof fn lemma_insert_point_exists(ts: Seq<Table>, name: Seq<char>)
    requires
        names_sorted(ts),
        !has_table(ts, name),
    ensures
        exists|k: int| insert_point(ts, name, k),
    decreases ts.len(),
{
    if ts.len() == 0 {
        assert(insert_point(ts, name, 0));
    } else {
        let init = ts.drop_last();
        let last = ts.last();
        assert(names_sorted(init)) by {
            assert forall|i: int, j: int| 0 <= i < j < init.len() implies chars_lt(
                #[trigger] init[i].name@,
                #[trigger] init[j].name@,
            ) by {
                assert(chars_lt(ts[i].name@, ts[j].name@));
            }
        }
        assert(!has_table(init, name)) by {
            if has_table(init, name) {
                let i = choose|i: int| 0 <= i < init.len() && (#[trigger] init[i]).name@ == name;
                assert(ts[i].name@ == name);
            }
        }
        lemma_insert_point_exists(init, name);
        let k0 = choose|k: int| insert_point(init, name, k);
        assert(last.name@ != name);
        lemma_chars_lt_total(last.name@, name);
        if chars_lt(last.name@, name) {
            assert forall|j: int| 0 <= j < ts.len() implies chars_lt((#[trigger] ts[j]).name@, name) by {
                if j < ts.len() - 1 {
                    assert(chars_lt(ts[j].name@, ts[ts.len() - 1].name@));
                    lemma_chars_lt_transitive(ts[j].name@, last.name@, name);
                }
            }
            assert(insert_point(ts, name, ts.len() as int));
        } else {
            assert forall|j: int| k0 <= j < ts.len() implies chars_lt(name, (#[trigger] ts[j]).name@) by {
                if j < ts.len() - 1 {
                    assert(chars_lt(name, init[j].name@));
                }
            }
            assert forall|j: int| 0 <= j < k0 implies chars_lt((#[trigger] ts[j]).name@, name) by {
                assert(chars_lt(init[j].name@, name));
            }
            assert(insert_point(ts, name, k0));
        }
    }
}

/// Storing a table and then looking up its name gives back that table;
/// every other name keeps the table it had.
pub proof fn lemma_insert_lookup(ts: Seq<Table>, t: Table, name: Seq<char>)
    requires
        names_sorted(ts),
    ensures
        lookup(spec_insert(ts, t), t.name@) == Some(t),
        name != t.name@ ==> lookup(spec_insert(ts, t), name) == lookup(ts, name),
{
    let ts2 = spec_insert(ts, t);
    lemma_has_table(ts, name);
    lemma_has_table(ts, t.name@);
    if has_table(ts, t.name@) {
        let idx = table_index(ts, t.name@);
        assert(first_named(ts2, t.name@, idx));
        lemma_table_index(ts2, t.name@, idx);
        if name != t.name@ {
            if has_table(ts, name) {
                let i = table_index(ts, name);
                assert(i != idx);
                assert(first_named(ts2, name, i));
                lemma_table_index(ts2, name, i);
            } else {
                assert forall|j: int| 0 <= j < ts2.len() implies (#[trigger] ts2[j]).name@ != name by {
                    if j != idx {
                        assert(ts2[j] == ts[j]);
                        if ts[j].name@ == name {
                            assert(has_table(ts, name));
                        }
                    }
                }
                lemma_table_index_none(ts2, name);
                lemma_table_index_none(ts, name);
            }
        }
    } else {
        lemma_insert_point_exists(ts, t.name@);
        let k = choose|k: int| insert_point(ts, t.name@, k);
        assert(ts2 == ts.insert(k, t));
        assert forall|j: int| 0 <= j < k implies (#[trigger] ts2[j]).name@ != t.name@ by {
            assert(ts2[j] == ts[j]);
            if ts[j].name@ == t.name@ {
                assert(has_table(ts, t.name@));
            }
        }
        assert(first_named(ts2, t.name@, k));
        lemma_table_index(ts2, t.name@, k);
        if name != t.name@ {
            if has_table(ts, name) {
                let i = table_index(ts, name);
                let i2 = if i < k {
                    i
                } else {
                    i + 1
                };
                assert(ts2[i2] == ts[i]);
                assert forall|j: int| 0 <= j < i2 implies (#[trigger] ts2[j]).name@ != name by {
                    if j < k {
                        assert(ts2[j] == ts[j]);
                    } else if j > k {
                        assert(ts2[j] == ts[j - 1]);
                    }
                }
                assert(first_named(ts2, name, i2));
                lemma_table_index(ts2, name, i2);
            } else {
                assert forall|j: int| 0 <= j < ts2.len() implies (#[trigger] ts2[j]).name@ != name by {
                    if j < k {
                        assert(ts2[j] == ts[j]);
                        if ts[j].name@ == name {
                            assert(has_table(ts, name));
                        }
                    } else if j > k {
                        assert(ts2[j] == ts[j - 1]);
                        if ts[j - 1].name@ == name {
                            assert(has_table(ts, name));
                        }
                    }
                }
                lemma_table_index_none(ts2, name);
                lemma_table_index_none(ts, name);
            }
        }
    }
}

/// The first primary-key column of a table.
pub open spec fn first_pk(t: Table) -> Option<Column> {
    if exists|i: int| first_pk_at(t, i) {
        Some(t.columns@[choose|i: int| first_pk_at(t, i)])
    } else {
        None
    }
}

/// Column `i` is the first primary-key column of `t`.
pub open spec fn first_pk_at(t: Table, i: int) -> bool {
    &&& 0 <= i < t.columns.len()
    &&& t.columns@[i].primary_key
    &&& forall|j: int| 0 <= j < i ==> !(#[trigger] t.columns@[j]).primary_key
}

/// The column that a foreign key without an explicit target column refers
/// to: the first primary-key column of the referenced table, else `rowid`.
pub open spec fn default_target(ts: Seq<Table>, to_table: Seq<char>) -> Seq<char> {
    match lookup(ts, to_table) {
        Some(t) => match first_pk(t) {
            Some(c) => c.name@,
            None => "rowid"@,
        },
        None => "rowid"@,
    }
}

/// The names of the junction tables of a list, in order.
pub open spec fn junction_names(ts: Seq<Table>) -> Seq<Seq<char>>
    decreases ts.len(),
{
    if ts.len() == 0 {
        seq![]
    } else {
        junction_names(ts.drop_last()) + (if junction_pair(ts.last()) is Some {
            seq![ts.last().name@]
        } else {
            seq![]
        })
    }
}

pub proof fn lemma_junction_names(ts: Seq<Table>, name: Seq<char>)
    ensures
        junction_names(ts).contains(name) <==> exists|i: int|
            0 <= i < ts.len() && (#[trigger] ts[i]).name@ == name && junction_pair(ts[i]) is Some,
    decreases ts.len(),
{
    if ts.len() > 0 {
        let p = ts.drop_last();
        lemma_junction_names(p, name);
        let tail = if junction_pair(ts.last()) is Some {
            seq![ts.last().name@]
        } else {
            seq![]
        };
        assert(junction_names(ts) == junction_names(p) + tail);
        if junction_names(ts).contains(name) {
            let k = choose|k: int| 0 <= k < junction_names(ts).len() && junction_names(ts)[k] == name;
            if k < junction_names(p).len() {
                assert(junction_names(p)[k] == name);
                let i = choose|i: int|
                    0 <= i < p.len() && (#[trigger] p[i]).name@ == name && junction_pair(p[i]) is Some;
                assert(ts[i] == p[i]);
            } else {
                assert(ts[ts.len() - 1].name@ == name);
            }
        }
        if exists|i: int|
            0 <= i < ts.len() && (#[trigger] ts[i]).name@ == name && junction_pair(ts[i]) is Some {
            let i = choose|i: int|
                0 <= i < ts.len() && (#[trigger] ts[i]).name@ == name && junction_pair(ts[i]) is Some;
            if i < ts.len() - 1 {
                assert(p[i] == ts[i]);
                let k = choose|k: int| 0 <= k < junction_names(p).len() && junction_names(p)[k] == name;
                assert((junction_names(p) + tail)[k] == name);
            } else {
                assert((junction_names(p) + tail)[junction_names(p).len() as int] == name);
            }
        }
    }
}

/// The tables of a database, in name order, each name once.
#[derive(Debug)]
pub struct Schema {
    tables: Vec<Table>,
}

impl View for Schema {
    type V = Seq<Table>;

    closed spec fn view(&self) -> Seq<Table> {
        self.tables@
    }
}

impl Schema {
    #[verifier::type_invariant]
    spec fn sorted(self) -> bool {
        names_sorted(self.tables@)
    }

    /// A schema without tables.
    pub fn new() -> (s: Schema)
        ensures
            s@ == Seq::<Table>::empty(),
    {
        Schema { tables: Vec::new() }
    }

    /// The tables, in name order.
    pub fn tables(&self) -> (r: &Vec<Table>)
        ensures
            r@ == self@,
            names_sorted(self@),
    {
        proof {
            use_type_invariant(self);
        }
        &self.tables
    }

    /// The table called `name`.
    pub fn get(&self, name: &str) -> (r: Option<&Table>)
        ensures
            match r {
                Some(t) => lookup(self@, name@) == Some(*t),
                None => lookup(self@, name@) is None,
            },
            r is Some <==> has_table(self@, name@),
    {
        let mut i: usize = 0;
        while i < self.tables.len()
            invariant
                i <= self.tables.len(),
                forall|j: int| 0 <= j < i ==> (#[trigger] self.tables@[j]).name@ != name@,
            decreases self.tables.len() - i,
        {
            if str_eq(self.tables[i].name.as_str(), name) {
                proof {
                    lemma_table_index(self.tables@, name@, i as int);
                }
                return Some(&self.tables[i]);
            }
            i = i + 1;
        }
        proof {
            lemma_table_index_none(self.tables@, name@);
        }
        None
    }

    /// Stores a table under its name, replacing the table of that name.
    pub fn insert(&mut self, table: Table)
        ensures
            final(self)@ == spec_insert(old(self)@, table),
            names_sorted(final(self)@),
    {
        proof {
            use_type_invariant(&*self);
        }
        let ghost ts = self.tables@;
        let mut i: usize = 0;
        while i < self.tables.len() && str_lt(self.tables[i].name.as_str(), table.name.as_str())
            invariant
                self.tables@ == ts,
                names_sorted(ts),
                i <= ts.len(),
                forall|j: int| 0 <= j < i ==> chars_lt((#[trigger] ts[j]).name@, table.name@),
            decreases ts.len() - i,
        {
            i = i + 1;
        }
        if i < self.tables.len() && str_eq(self.tables[i].name.as_str(), table.name.as_str()) {
            proof {
                assert forall|j: int| 0 <= j < i implies (#[trigger] ts[j]).name@ != table.name@ by {
                    lemma_chars_lt_irreflexive(table.name@);
                }
                lemma_table_index(ts, table.name@, i as int);
                assert(has_table(ts, table.name@));
            }
            let mut tables: Vec<Table> = Vec::new();
            std::mem::swap(&mut tables, &mut self.tables);
            tables.set(i, table);
            proof {
                assert forall|a: int, b: int| 0 <= a < b < tables@.len() implies chars_lt(
                    #[trigger] tables@[a].name@,
                    #[trigger] tables@[b].name@,
                ) by {
                    assert(ts[a].name@ == tables@[a].name@);
                    assert(ts[b].name@ == tables@[b].name@);
                }
            }
            self.tables = tables;
        } else {
            proof {
                assert forall|j: int| i <= j < ts.len() implies chars_lt(
                    table.name@,
                    (#[trigger] ts[j]).name@,
                ) by {
                    if j > i {
                        assert(chars_lt(ts[i as int].name@, ts[j].name@));
                    }
                    lemma_chars_lt_total(ts[i as int].name@, table.name@);
                    if j > i {
                        lemma_chars_lt_transitive(table.name@, ts[i as int].name@, ts[j].name@);
                    }
                }
                assert(insert_point(ts, table.name@, i as int));
                assert forall|j: int| 0 <= j < ts.len() implies (#[trigger] ts[j]).name@
                    != table.name@ by {
                    lemma_chars_lt_irreflexive(table.name@);
                }
                assert(!has_table(ts, table.name@));
                let k = choose|k: int| insert_point(ts, table.name@, k);
                if k < i {
                    assert(chars_lt(ts[k].name@, table.name@));
                    lemma_chars_lt_total(ts[k].name@, table.name@);
                }
                if k > i {
                    assert(chars_lt(ts[i as int].name@, table.name@));
                    lemma_chars_lt_total(ts[i as int].name@, table.name@);
                }
                assert(k == i);
            }
            let mut tables: Vec<Table> = Vec::new();
            std::mem::swap(&mut tables, &mut self.tables);
            tables.insert(i, table);
            proof {
                assert(tables@ == ts.insert(i as int, table));
                assert forall|a: int, b: int| 0 <= a < b < tables@.len() implies chars_lt(
                    #[trigger] tables@[a].name@,
                    #[trigger] tables@[b].name@,
                ) by {
                    if b < i {
                    } else if a < i && b == i {
                    } else if a < i {
                        assert(tables@[b] == ts[b - 1]);
                    } else if a == i {
                        assert(tables@[b] == ts[b - 1]);
                    } else {
                        assert(tables@[a] == ts[a - 1]);
                        assert(tables@[b] == ts[b - 1]);
                    }
                }
            }
            self.tables = tables;
        }
    }

    /// Gives every foreign key that names no target column the column it
    /// refers to: the first primary-key column of the referenced table, or
    /// `rowid` where that table has none or is missing.
    pub fn resolve_foreign_keys(&mut self)
        ensures
            final(self)@.len() == old(self)@.len(),
            forall|i: int|
                #![trigger final(self)@[i]]
                0 <= i < old(self)@.len() ==> {
                    let (t, u) = (old(self)@[i], final(self)@[i]);
                    &&& u.name == t.name
                    &&& u.columns == t.columns
                    &&& u.foreign_keys.len() == t.foreign_keys.len()
                    &&& forall|j: int|
                        #![trigger u.foreign_keys@[j]]
                        0 <= j < t.foreign_keys.len() ==> {
                            let (f, g) = (t.foreign_keys@[j], u.foreign_keys@[j]);
                            &&& g.from_column == f.from_column
                            &&& g.to_table == f.to_table
                            &&& g.to_column@ == if f.to_column@.len() == 0 {
                                default_target(old(self)@, f.to_table@)
                            } else {
                                f.to_column@
                            }
                        }
                },
    {
        proof {
            use_type_invariant(&*self);
        }
        let ghost ts = self.tables@;
        let mut targets: Vec<Vec<String>> = Vec::new();
        let mut i: usize = 0;
        while i < self.tables.len()
            invariant
                self.tables@ == ts,
                i <= ts.len(),
                targets@.len() == i,
                forall|k: int|
                    #![trigger targets@[k]]
                    0 <= k < i ==> {
                        &&& targets@[k]@.len() == ts[k].foreign_keys.len()
                        &&& forall|j: int|
                            #![trigger targets@[k]@[j]]
                            0 <= j < ts[k].foreign_keys.len() ==> targets@[k]@[j]@ == if ts[k].foreign_keys@[j].to_column@.len()
                                == 0 {
                                default_target(ts, ts[k].foreign_keys@[j].to_table@)
                            } else {
                                ts[k].foreign_keys@[j].to_column@
                            }
                    },
            decreases ts.len() - i,
        {
            let t = &self.tables[i];
            let mut row: Vec<String> = Vec::new();
            let mut j: usize = 0;
            while j < t.foreign_keys.len()
                invariant
                    self.tables@ == ts,
                    i < ts.len(),
                    *t == ts[i as int],
                    j <= t.foreign_keys.len(),
                    row@.len() == j,
                    forall|q: int|
                        #![trigger row@[q]]
                        0 <= q < j ==> row@[q]@ == if t.foreign_keys@[q].to_column@.len() == 0 {
                            default_target(ts, t.foreign_keys@[q].to_table@)
                        } else {
                            t.foreign_keys@[q].to_column@
                        },
                decreases t.foreign_keys.len() - j,
            {
                let fk = &t.foreign_keys[j];
                if char_count(fk.to_column.as_str()) == 0 {
                    row.push(self.default_target(&fk.to_table));
                } else {
                    row.push(fk.to_column.clone());
                }
                j = j + 1;
            }
            targets.push(row);
            i = i + 1;
        }
        let mut tables: Vec<Table> = Vec::new();
            std::mem::swap(&mut tables, &mut self.tables);
        let mut out: Vec<Table> = Vec::new();
        let mut i: usize = 0;
        let ghost n = ts.len();
        while tables.len() > 0
            invariant
                tables@ == ts.skip(i as int),
                i <= n,
                n == ts.len(),
                n <= usize::MAX,
                targets@.len() == n,
                out@.len() == i,
                forall|k: int|
                    #![trigger targets@[k]]
                    0 <= k < n ==> {
                        &&& targets@[k]@.len() == ts[k].foreign_keys.len()
                        &&& forall|j: int|
                            #![trigger targets@[k]@[j]]
                            0 <= j < ts[k].foreign_keys.len() ==> targets@[k]@[j]@ == if ts[k].foreign_keys@[j].to_column@.len()
                                == 0 {
                                default_target(ts, ts[k].foreign_keys@[j].to_table@)
                            } else {
                                ts[k].foreign_keys@[j].to_column@
                            }
                    },
                forall|k: int|
                    #![trigger out@[k]]
                    0 <= k < i ==> {
                        let (t, u) = (ts[k], out@[k]);
                        &&& u.name == t.name
                        &&& u.columns == t.columns
                        &&& u.foreign_keys.len() == t.foreign_keys.len()
                        &&& forall|j: int|
                            #![trigger u.foreign_keys@[j]]
                            0 <= j < t.foreign_keys.len() ==> {
                                let (f, g) = (t.foreign_keys@[j], u.foreign_keys@[j]);
                                &&& g.from_column == f.from_column
                                &&& g.to_table == f.to_table
                                &&& g.to_column@ == targets@[k]@[j]@
                            }
                    },
            decreases tables.len(),
        {
            let t = tables.remove(0);
            assert(t == ts[i as int]);
            assert(tables@ =~= ts.skip(i + 1));
            let Table { name, columns, foreign_keys } = t;
            let mut fks: Vec<ForeignKey> = Vec::new();
            let mut j: usize = 0;
            while j < foreign_keys.len()
                invariant
                    i < n,
                    n == ts.len(),
                    targets@.len() == n,
                    foreign_keys == ts[i as int].foreign_keys,
                    targets@[i as int]@.len() == foreign_keys.len(),
                    j <= foreign_keys.len(),
                    fks@.len() == j,
                    forall|q: int|
                        #![trigger fks@[q]]
                        0 <= q < j ==> {
                            let (f, g) = (foreign_keys@[q], fks@[q]);
                            &&& g.from_column == f.from_column
                            &&& g.to_table == f.to_table
                            &&& g.to_column@ == targets@[i as int]@[q]@
                        },
                decreases foreign_keys.len() - j,
            {
                let f = &foreign_keys[j];
                fks.push(
                    ForeignKey {
                        from_column: f.from_column.clone(),
                        to_table: f.to_table.clone(),
                        to_column: targets[i][j].clone(),
                    },
                );
                j = j + 1;
            }
            out.push(Table { name, columns, foreign_keys: fks });
            i = i + 1;
        }
        proof {
            assert(i == n);
            assert forall|a: int, b: int| 0 <= a < b < out@.len() implies chars_lt(
                #[trigger] out@[a].name@,
                #[trigger] out@[b].name@,
            ) by {
                assert(out@[a].name == ts[a].name);
                assert(out@[b].name == ts[b].name);
            }
        }
        self.tables = out;
    }

    /// The column that a foreign key into `to_table` without an explicit
    /// target column refers to.
    fn default_target(&self, to_table: &String) -> (r: String)
        ensures
            r@ == default_target(self@, to_table@),
    {
        match self.get(to_table.as_str()) {
            Some(t) => {
                let mut i: usize = 0;
                while i < t.columns.len()
                    invariant
                        lookup(self@, to_table@) == Some(*t),
                        i <= t.columns.len(),
                        forall|j: int| 0 <= j < i ==> !(#[trigger] t.columns@[j]).primary_key,
                    decreases t.columns.len() - i,
                {
                    if t.columns[i].primary_key {
                        proof {
                            assert(first_pk_at(*t, i as int));
                            let k = choose|k: int| first_pk_at(*t, k);
                            if k < i {
                            }
                            if k > i {
                                assert(!t.columns@[i as int].primary_key);
                            }
                            assert(first_pk(*t) == Some(t.columns@[i as int]));
                        }
                        return t.columns[i].name.clone();
                    }
                    i = i + 1;
                }
                let r = String::from_str("rowid");
                r
            },
            None => String::from_str("rowid"),
        }
    }

    /// The names of the junction tables, in name order.
    pub fn collapsible_junctions(&self) -> (r: Vec<String>)
        ensures
            views(r@) == junction_names(self@),
    {
        let mut r: Vec<String> = Vec::new();
        let mut i: usize = 0;
        while i < self.tables.len()
            invariant
                i <= self.tables.len(),
                views(r@) == junction_names(self.tables@.take(i as int)),
            decreases self.tables.len() - i,
        {
            let ghost before = r@;
            if self.tables[i].junction_targets().is_some() {
                r.push(self.tables[i].name.clone());
            }
            assert(self.tables@.take(i + 1).drop_last() =~= self.tables@.take(i as int));
            assert(views(r@) =~= junction_names(self.tables@.take(i + 1)));
            i = i + 1;
        }
        assert(self.tables@.take(i as int) =~= self.tables@);
        r
    }
}

impl Default for Schema {
    fn default() -> (s: Schema)
        ensures
            s@ == Seq::<Table>::empty(),
    {
        Schema::new()
    }
}

/// How `quote_ident` writes one character of a name.
pub open spec fn quote_char(c: char) -> Seq<char> {
    if c == '"' {
        seq!['"', '"']
    } else {
        seq![c]
    }
}

/// Quotes a name for use as an SQL identifier: in double quotes, each double
/// quote inside doubled.
pub fn quote_ident(name: &str) -> (r: String)
    ensures
        r@ == seq!['"'] + flat_map(name@, |c: char| quote_char(c)) + seq!['"'],
{
    let v = chars_of(name);
    let mut r = String::new();
    push_char(&mut r, '"');
    let mut i: usize = 0;
    while i < v.len()
        invariant
            v@ == name@,
            i <= v.len(),
            r@ == seq!['"'] + flat_map(name@.take(i as int), |c: char| quote_char(c)),
        decreases v.len() - i,
    {
        let ghost before = r@;
        if v[i] == '"' {
            push_char(&mut r, '"');
            push_char(&mut r, '"');
        } else {
            push_char(&mut r, v[i]);
        }
        assert(r@ =~= before + quote_char(v@[i as int]));
        proof {
            lemma_flat_map_push(name@, i as int, |c: char| quote_char(c));
        }
        assert(r@ =~= seq!['"'] + flat_map(name@.take(i + 1), |c: char| quote_char(c)));
        i = i + 1;
    }
    assert(name@.take(i as int) =~= name@);
    push_char(&mut r, '"');
    r
}

} // verus!
