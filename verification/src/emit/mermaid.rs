//! Mermaid `erDiagram` output: an entity per table that is not a junction
//! table, and a one-to-many relationship per foreign key or junction.
use vstd::prelude::*;
use crate::schema::{Column, ForeignKey, Schema, Table, junction_pair};
use crate::text::{
    ascii_alnum, ascii_digit, chars_of, is_ascii_alnum, is_ascii_digit, lemma_occurs_concat, lemma_occurs_self,
    occurs_in, push_char, push_str,
};

verus! {

pub open spec fn ident_char(c: char) -> char {
    if is_ascii_alnum(c) || c == '_' {
        c
    } else {
        '_'
    }
}

/// A Mermaid identifier for a name: every character that is not an ASCII
/// letter, digit or `_` made `_`; `_` put before a leading digit; `empty`
/// for the empty name.
pub open spec fn spec_ident(s: Seq<char>) -> Seq<char> {
    let cleaned = s.map_values(|c: char| ident_char(c));
    if cleaned.len() == 0 {
        "empty"@
    } else if is_ascii_digit(cleaned[0]) {
        seq!['_'] + cleaned
    } else {
        cleaned
    }
}

/// A Mermaid name: not empty, made of ASCII letters, digits and `_`, and
/// not starting with a digit.
pub open spec fn valid_ident(s: Seq<char>) -> bool {
    &&& s.len() > 0
    &&& forall|i: int| 0 <= i < s.len() ==> is_ascii_alnum(#[trigger] s[i]) || s[i] == '_'
    &&& !is_ascii_digit(s[0])
}

/// Every identifier is a valid Mermaid name: not empty, made of ASCII
/// letters, digits and `_`, and not starting with a digit.
pub proof fn lemma_ident_valid(s: Seq<char>)
    ensures
        valid_ident(spec_ident(s)),
{
    let cleaned = s.map_values(|c: char| ident_char(c));
    if cleaned.len() == 0 {
        reveal_strlit("empty");
    }
}

/// The attribute line of a column; a column without a type is `TEXT`.
pub open spec fn spec_attribute(c: Column) -> Seq<char> {
    "        "@ + spec_ident(if c.data_type@.len() == 0 { "TEXT"@ } else { c.data_type@ }) + seq![' ']
        + spec_ident(c.name@) + (if c.primary_key {
        " PK"@
    } else if c.not_null {
        " \"NOT NULL\""@
    } else {
        seq![]
    }) + seq!['\n']
}

pub open spec fn spec_attributes(cs: Seq<Column>) -> Seq<char>
    decreases cs.len(),
{
    if cs.len() == 0 {
        seq![]
    } else {
        spec_attributes(cs.drop_last()) + spec_attribute(cs.last())
    }
}

/// The entity block of a table; junction tables have none.
pub open spec fn spec_entity(t: Table) -> Seq<char> {
    if junction_pair(t) is Some {
        seq![]
    } else {
        "    "@ + spec_ident(t.name@) + " {\n"@ + spec_attributes(t.columns@) + "    }\n"@
    }
}

pub open spec fn spec_entities(ts: Seq<Table>) -> Seq<char>
    decreases ts.len(),
{
    if ts.len() == 0 {
        seq![]
    } else {
        spec_entities(ts.drop_last()) + spec_entity(ts.last())
    }
}

/// The relationship of a foreign key of table `from`: one referenced row to
/// many referencing rows, labelled with the referencing column.
pub open spec fn spec_fk_relation(from: Seq<char>, fk: ForeignKey) -> Seq<char> {
    "    "@ + spec_ident(fk.to_table@) + " ||--o{ "@ + spec_ident(from) + " : "@ + spec_ident(
        fk.from_column@,
    ) + seq!['\n']
}

pub open spec fn spec_fk_relations(from: Seq<char>, fks: Seq<ForeignKey>) -> Seq<char>
    decreases fks.len(),
{
    if fks.len() == 0 {
        seq![]
    } else {
        spec_fk_relations(from, fks.drop_last()) + spec_fk_relation(from, fks.last())
    }
}

/// The relationships of a table: one between the two tables it joins when
/// it is a junction table, else one per foreign key.
pub open spec fn spec_relations(t: Table) -> Seq<char> {
    match junction_pair(t) {
        Some((a, b)) => "    "@ + spec_ident(a) + " ||--o{ "@ + spec_ident(b) + seq!['\n'],
        None => spec_fk_relations(t.name@, t.foreign_keys@),
    }
}

pub open spec fn spec_all_relations(ts: Seq<Table>) -> Seq<char>
    decreases ts.len(),
{
    if ts.len() == 0 {
        seq![]
    } else {
        spec_all_relations(ts.drop_last()) + spec_relations(ts.last())
    }
}

/// The whole Mermaid document for a list of tables.
pub open spec fn spec_render(ts: Seq<Table>) -> Seq<char> {
    "erDiagram\n"@ + spec_entities(ts) + spec_all_relations(ts)
}

fn ident(s: &str) -> (r: String)
    ensures
        r@ == spec_ident(s@),
{
    let v = chars_of(s);
    let mut cleaned: Vec<char> = Vec::new();
    let mut i: usize = 0;
    while i < v.len()
        invariant
            v@ == s@,
            i <= v.len(),
            cleaned@ == s@.take(i as int).map_values(|c: char| ident_char(c)),
        decreases v.len() - i,
    {
        let c = v[i];
        if ascii_alnum(c) || c == '_' {
            cleaned.push(c);
        } else {
            cleaned.push('_');
        }
        assert(s@.take(i + 1).map_values(|c: char| ident_char(c)) =~= s@.take(i as int).map_values(
            |c: char| ident_char(c),
        ).push(ident_char(s@[i as int])));
        i = i + 1;
    }
    assert(s@.take(i as int) =~= s@);
    if cleaned.len() == 0 {
        return String::from_str("empty");
    }
    let mut r = String::new();
    if ascii_digit(cleaned[0]) {
        push_char(&mut r, '_');
    }
    let ghost head = r@;
    let mut k: usize = 0;
    while k < cleaned.len()
        invariant
            k <= cleaned.len(),
            r@ == head + cleaned@.take(k as int),
        decreases cleaned.len() - k,
    {
        push_char(&mut r, cleaned[k]);
        assert(cleaned@.take(k + 1) =~= cleaned@.take(k as int).push(cleaned@[k as int]));
        k = k + 1;
    }
    assert(cleaned@.take(k as int) =~= cleaned@);
    assert(r@ =~= spec_ident(s@));
    r
}

fn attribute(out: &mut String, c: &Column)
    ensures
        final(out)@ == old(out)@ + spec_attribute(*c),
{
    let ghost before = out@;
    push_str(out, "        ");
    let ty = if c.data_type.as_str().unicode_len() == 0 {
        ident("TEXT")
    } else {
        ident(c.data_type.as_str())
    };
    push_str(out, ty.as_str());
    push_char(out, ' ');
    let name = ident(c.name.as_str());
    push_str(out, name.as_str());
    if c.primary_key {
        push_str(out, " PK");
    } else if c.not_null {
        push_str(out, " \"NOT NULL\"");
    }
    push_char(out, '\n');
    assert(out@ =~= before + spec_attribute(*c));
}

/// The Mermaid document of a schema.
pub fn render(schema: &Schema) -> (out: String)
    ensures
        out@ == spec_render(schema@),
{
    let tables = schema.tables();
    let ghost all = schema@;
    let mut out = String::new();
    push_str(&mut out, "erDiagram\n");
    let ghost head = out@;
    let mut i: usize = 0;
    while i < tables.len()
        invariant
            tables@ == all,
            i <= tables.len(),
            out@ == head + spec_entities(all.take(i as int)),
        decreases tables.len() - i,
    {
        let t = &tables[i];
        let ghost before = out@;
        if t.junction_targets().is_none() {
            push_str(&mut out, "    ");
            let name = ident(t.name.as_str());
            push_str(&mut out, name.as_str());
            push_str(&mut out, " {\n");
            let ghost body = out@;
            let mut j: usize = 0;
            while j < t.columns.len()
                invariant
                    j <= t.columns.len(),
                    out@ == body + spec_attributes(t.columns@.take(j as int)),
                decreases t.columns.len() - j,
            {
                attribute(&mut out, &t.columns[j]);
                assert(t.columns@.take(j + 1).drop_last() =~= t.columns@.take(j as int));
                j = j + 1;
            }
            assert(t.columns@.take(j as int) =~= t.columns@);
            push_str(&mut out, "    }\n");
        }
        assert(out@ =~= before + spec_entity(*t));
        assert(all.take(i + 1).drop_last() =~= all.take(i as int));
        i = i + 1;
    }
    assert(all.take(i as int) =~= all);
    let ghost head2 = out@;
    let mut i: usize = 0;
    while i < tables.len()
        invariant
            tables@ == all,
            i <= tables.len(),
            out@ == head2 + spec_all_relations(all.take(i as int)),
        decreases tables.len() - i,
    {
        let t = &tables[i];
        let ghost before = out@;
        match t.junction_targets() {
            Some((a, b)) => {
                push_str(&mut out, "    ");
                let x = ident(a.as_str());
                push_str(&mut out, x.as_str());
                push_str(&mut out, " ||--o{ ");
                let y = ident(b.as_str());
                push_str(&mut out, y.as_str());
                push_char(&mut out, '\n');
            },
            None => {
                let mut j: usize = 0;
                while j < t.foreign_keys.len()
                    invariant
                        j <= t.foreign_keys.len(),
                        out@ == before + spec_fk_relations(t.name@, t.foreign_keys@.take(j as int)),
                    decreases t.foreign_keys.len() - j,
                {
                    let fk = &t.foreign_keys[j];
                    let ghost b2 = out@;
                    push_str(&mut out, "    ");
                    let x = ident(fk.to_table.as_str());
                    push_str(&mut out, x.as_str());
                    push_str(&mut out, " ||--o{ ");
                    let y = ident(t.name.as_str());
                    push_str(&mut out, y.as_str());
                    push_str(&mut out, " : ");
                    let z = ident(fk.from_column.as_str());
                    push_str(&mut out, z.as_str());
                    push_char(&mut out, '\n');
                    assert(out@ =~= b2 + spec_fk_relation(t.name@, *fk));
                    assert(t.foreign_keys@.take(j + 1).drop_last() =~= t.foreign_keys@.take(j as int));
                    j = j + 1;
                }
                assert(t.foreign_keys@.take(j as int) =~= t.foreign_keys@);
            },
        }
        assert(out@ =~= before + spec_relations(*t));
        assert(all.take(i + 1).drop_last() =~= all.take(i as int));
        i = i + 1;
    }
    assert(all.take(i as int) =~= all);
    out
}

proof fn lemma_fk_relations_has(from: Seq<char>, fks: Seq<ForeignKey>, j: int)
    requires
        0 <= j < fks.len(),
    ensures
        occurs_in(spec_fk_relation(from, fks[j]), spec_fk_relations(from, fks)),
    decreases fks.len(),
{
    let e = spec_fk_relation(from, fks[j]);
    let pre = spec_fk_relations(from, fks.drop_last());
    if j < fks.len() - 1 {
        assert(fks.drop_last()[j] == fks[j]);
        lemma_fk_relations_has(from, fks.drop_last(), j);
    } else {
        lemma_occurs_self(e);
    }
    lemma_occurs_concat(e, pre, spec_fk_relation(from, fks.last()));
}

proof fn lemma_all_relations_has(ts: Seq<Table>, i: int, part: Seq<char>)
    requires
        0 <= i < ts.len(),
        occurs_in(part, spec_relations(ts[i])),
    ensures
        occurs_in(part, spec_all_relations(ts)),
    decreases ts.len(),
{
    let pre = spec_all_relations(ts.drop_last());
    if i < ts.len() - 1 {
        assert(ts.drop_last()[i] == ts[i]);
        lemma_all_relations_has(ts.drop_last(), i, part);
    }
    lemma_occurs_concat(part, pre, spec_relations(ts.last()));
}

/// Every foreign key of a table that is not a junction table is drawn as a
/// relationship with the referenced table on the one side and the
/// referencing table on the many side, labelled with the referencing
/// column.
pub proof fn lemma_fk_relation_drawn(ts: Seq<Table>, i: int, j: int)
    requires
        0 <= i < ts.len(),
        junction_pair(ts[i]) is None,
        0 <= j < ts[i].foreign_keys.len(),
    ensures
        occurs_in(
            "    "@ + spec_ident(ts[i].foreign_keys@[j].to_table@) + " ||--o{ "@ + spec_ident(ts[i].name@) + " : "@
                + spec_ident(ts[i].foreign_keys@[j].from_column@) + seq!['\n'],
            spec_render(ts),
        ),
{
    let fk = ts[i].foreign_keys@[j];
    let e = spec_fk_relation(ts[i].name@, fk);
    assert(e == "    "@ + spec_ident(fk.to_table@) + " ||--o{ "@ + spec_ident(ts[i].name@) + " : "@ + spec_ident(
        fk.from_column@,
    ) + seq!['\n']);
    lemma_fk_relations_has(ts[i].name@, ts[i].foreign_keys@, j);
    lemma_all_relations_has(ts, i, e);
    lemma_occurs_concat(e, "erDiagram\n"@ + spec_entities(ts), spec_all_relations(ts));
}

/// Every junction table is drawn as one relationship between the table of
/// its first key (one side) and the table of its second (many side).
pub proof fn lemma_junction_relation_drawn(ts: Seq<Table>, i: int)
    requires
        0 <= i < ts.len(),
        junction_pair(ts[i]) is Some,
    ensures
        occurs_in(
            "    "@ + spec_ident(ts[i].foreign_keys@[0].to_table@) + " ||--o{ "@ + spec_ident(
                ts[i].foreign_keys@[1].to_table@,
            ) + seq!['\n'],
            spec_render(ts),
        ),
{
    let e = spec_relations(ts[i]);
    assert(e == "    "@ + spec_ident(ts[i].foreign_keys@[0].to_table@) + " ||--o{ "@ + spec_ident(
        ts[i].foreign_keys@[1].to_table@,
    ) + seq!['\n']);
    lemma_occurs_self(e);
    lemma_all_relations_has(ts, i, e);
    lemma_occurs_concat(e, "erDiagram\n"@ + spec_entities(ts), spec_all_relations(ts));
}

} // verus!
