//! Graphviz output: one HTML-like table node per table, one edge per
//! foreign key, and one two-headed edge per junction table.
use vstd::prelude::*;
use crate::schema::{
    Column, ForeignKey, Schema, Table, junction_names, junction_pair, key_labels, lookup,
    lemma_junction_names,
};
use crate::text::{
    ascii_alnum, chars_of, contains_name, eq_ignore_ascii_case, eq_ignore_case, flat_map, is_ascii_alnum, join,
    join_strings, lemma_flat_map_push, lemma_occurs_concat, lemma_occurs_self, occurs_in, push_char, push_str,
    views,
};

verus! {

/// How `esc` writes one character: the four HTML-special characters as
/// entities, every other character as itself.
pub open spec fn esc_char(c: char) -> Seq<char> {
    if c == '&' {
        "&amp;"@
    } else if c == '<' {
        "&lt;"@
    } else if c == '>' {
        "&gt;"@
    } else if c == '"' {
        "&quot;"@
    } else {
        seq![c]
    }
}

pub open spec fn spec_esc(s: Seq<char>) -> Seq<char> {
    flat_map(s, |c: char| esc_char(c))
}

/// Text escaped for a label holds none of the characters that would end or
/// open markup there: no `<`, `>` or `"`.
pub proof fn lemma_esc_clean(s: Seq<char>)
    ensures
        forall|i: int| 0 <= i < spec_esc(s).len() ==> #[trigger] spec_esc(s)[i] != '<' && spec_esc(s)[i] != '>'
            && spec_esc(s)[i] != '"',
    decreases s.len(),
{
    if s.len() > 0 {
        lemma_esc_clean(s.drop_last());
        let a = spec_esc(s.drop_last());
        let b = esc_char(s.last());
        reveal_strlit("&amp;");
        reveal_strlit("&lt;");
        reveal_strlit("&gt;");
        reveal_strlit("&quot;");
        assert forall|i: int| 0 <= i < spec_esc(s).len() implies #[trigger] spec_esc(s)[i] != '<' && spec_esc(s)[i]
            != '>' && spec_esc(s)[i] != '"' by {
            if i < a.len() {
                assert(spec_esc(s)[i] == a[i]);
            } else {
                assert(spec_esc(s)[i] == b[i - a.len()]);
            }
        }
    }
}

/// How `id` writes one character inside its quotes.
pub open spec fn id_char(c: char) -> Seq<char> {
    if c == '\\' {
        seq!['\\', '\\']
    } else if c == '"' {
        seq!['\\', '"']
    } else {
        seq![c]
    }
}

/// A Graphviz identifier: the name in double quotes, backslashes and
/// quotes escaped.
pub open spec fn spec_id(s: Seq<char>) -> Seq<char> {
    seq!['"'] + flat_map(s, |c: char| id_char(c)) + seq!['"']
}

pub open spec fn port_char(c: char) -> char {
    if is_ascii_alnum(c) {
        c
    } else {
        '_'
    }
}

/// The port of a column's row: `col_` and the name, every character that is
/// not an ASCII letter or digit made `_`.
pub open spec fn spec_port(col: Seq<char>) -> Seq<char> {
    "col_"@ + col.map_values(|c: char| port_char(c))
}

/// The table has a column of that name, ignoring ASCII case.
pub open spec fn has_column_like(t: Table, col: Seq<char>) -> bool {
    exists|i: int| 0 <= i < t.columns.len() && eq_ignore_case((#[trigger] t.columns@[i]).name@, col)
}

/// `:port` after a node where the table exists and has the column, else
/// nothing.
pub open spec fn spec_node_port(ts: Seq<Table>, table: Seq<char>, col: Seq<char>) -> Seq<char> {
    match lookup(ts, table) {
        Some(t) => if has_column_like(t, col) {
            seq![':'] + spec_port(col)
        } else {
            seq![]
        },
        None => seq![],
    }
}

/// The text of a column's cell: its name (bold for a key column), its key
/// labels, and its type.
pub open spec fn spec_cell(t: Table, c: Column) -> Seq<char> {
    (if c.primary_key {
        "<b>"@ + spec_esc(c.name@) + "</b>"@
    } else {
        spec_esc(c.name@)
    }) + (if key_labels(t, c).len() > 0 {
        seq![' '] + join(key_labels(t, c), ", "@)
    } else {
        seq![]
    }) + (if c.data_type@.len() > 0 {
        " : "@ + spec_esc(c.data_type@)
    } else {
        seq![]
    })
}

pub open spec fn spec_row(t: Table, c: Column) -> Seq<char> {
    "<tr><td port=\""@ + spec_port(c.name@) + "\">"@ + spec_cell(t, c) + "</td></tr>"@
}

pub open spec fn spec_rows(t: Table, cs: Seq<Column>) -> Seq<char>
    decreases cs.len(),
{
    if cs.len() == 0 {
        seq![]
    } else {
        spec_rows(t, cs.drop_last()) + spec_row(t, cs.last())
    }
}

/// The node statement of a table.
pub open spec fn spec_node(t: Table) -> Seq<char> {
    "  "@ + spec_id(t.name@) + " [label=<<table border=\"1\" cellborder=\"1\" cellspacing=\"0\">"@
        + "<tr><td><b>"@ + spec_esc(t.name@) + "</b></td></tr>"@ + spec_rows(t, t.columns@)
        + "</table>>];"@
}

/// Node statements of the tables that are not junction tables.
pub open spec fn spec_nodes(all: Seq<Table>, ts: Seq<Table>) -> Seq<char>
    decreases ts.len(),
{
    if ts.len() == 0 {
        seq![]
    } else {
        spec_nodes(all, ts.drop_last()) + if junction_names(all).contains(ts.last().name@) {
            seq![]
        } else {
            spec_node(ts.last()) + seq!['\n']
        }
    }
}

/// The edge statement of a foreign key from table `from`.
pub open spec fn spec_fk_edge(all: Seq<Table>, from: Seq<char>, fk: ForeignKey) -> Seq<char> {
    "  "@ + spec_id(from) + spec_node_port(all, from, fk.from_column@) + " -> "@ + spec_id(
        fk.to_table@,
    ) + spec_node_port(all, fk.to_table@, fk.to_column@) + " [taillabel=\"*\", headlabel=\"1\"];\n"@
}

/// Edge statements of a table's foreign keys that do not point at a
/// junction table.
pub open spec fn spec_fk_edges(all: Seq<Table>, from: Seq<char>, fks: Seq<ForeignKey>) -> Seq<char>
    decreases fks.len(),
{
    if fks.len() == 0 {
        seq![]
    } else {
        spec_fk_edges(all, from, fks.drop_last()) + if junction_names(all).contains(
            fks.last().to_table@,
        ) {
            seq![]
        } else {
            spec_fk_edge(all, from, fks.last())
        }
    }
}

/// Foreign-key edges of the tables that are not junction tables.
pub open spec fn spec_edges(all: Seq<Table>, ts: Seq<Table>) -> Seq<char>
    decreases ts.len(),
{
    if ts.len() == 0 {
        seq![]
    } else {
        spec_edges(all, ts.drop_last()) + if junction_names(all).contains(ts.last().name@) {
            seq![]
        } else {
            spec_fk_edges(all, ts.last().name@, ts.last().foreign_keys@)
        }
    }
}

/// The two-headed edge that stands for a junction table.
pub open spec fn spec_junction_edge(t: Table) -> Seq<char> {
    "  "@ + spec_id(t.foreign_keys@[0].to_table@) + " -> "@ + spec_id(t.foreign_keys@[1].to_table@)
        + " [dir=both, arrowtail=crow, arrowhead=crow];\n"@
}

pub open spec fn spec_junction_edges(ts: Seq<Table>) -> Seq<char>
    decreases ts.len(),
{
    if ts.len() == 0 {
        seq![]
    } else {
        spec_junction_edges(ts.drop_last()) + if junction_pair(ts.last()) is Some {
            spec_junction_edge(ts.last())
        } else {
            seq![]
        }
    }
}

/// The whole Graphviz document for a list of tables.
pub open spec fn spec_render(ts: Seq<Table>) -> Seq<char> {
    "digraph erd {\n  rankdir=LR;\n  node [shape=plaintext];\n"@ + spec_nodes(ts, ts) + spec_edges(
        ts,
        ts,
    ) + spec_junction_edges(ts) + "}\n"@
}

fn esc(s: &str) -> (r: String)
    ensures
        r@ == spec_esc(s@),
{
    let v = chars_of(s);
    let mut r = String::new();
    let mut i: usize = 0;
    while i < v.len()
        invariant
            v@ == s@,
            i <= v.len(),
            r@ == flat_map(s@.take(i as int), |c: char| esc_char(c)),
        decreases v.len() - i,
    {
        let ghost before = r@;
        let c = v[i];
        if c == '&' {
            push_str(&mut r, "&amp;");
        } else if c == '<' {
            push_str(&mut r, "&lt;");
        } else if c == '>' {
            push_str(&mut r, "&gt;");
        } else if c == '"' {
            push_str(&mut r, "&quot;");
        } else {
            push_char(&mut r, c);
        }
        assert(r@ =~= before + esc_char(s@[i as int]));
        proof {
            lemma_flat_map_push(s@, i as int, |c: char| esc_char(c));
        }
        i = i + 1;
    }
    assert(s@.take(i as int) =~= s@);
    r
}

fn id(s: &str) -> (r: String)
    ensures
        r@ == spec_id(s@),
{
    let v = chars_of(s);
    let mut r = String::new();
    push_char(&mut r, '"');
    let mut i: usize = 0;
    while i < v.len()
        invariant
            v@ == s@,
            i <= v.len(),
            r@ == seq!['"'] + flat_map(s@.take(i as int), |c: char| id_char(c)),
        decreases v.len() - i,
    {
        let ghost before = r@;
        let c = v[i];
        if c == '\\' {
            push_char(&mut r, '\\');
            push_char(&mut r, '\\');
        } else if c == '"' {
            push_char(&mut r, '\\');
            push_char(&mut r, '"');
        } else {
            push_char(&mut r, c);
        }
        assert(r@ =~= before + id_char(s@[i as int]));
        proof {
            lemma_flat_map_push(s@, i as int, |c: char| id_char(c));
        }
        assert(r@ =~= seq!['"'] + flat_map(s@.take(i + 1), |c: char| id_char(c)));
        i = i + 1;
    }
    assert(s@.take(i as int) =~= s@);
    push_char(&mut r, '"');
    r
}

fn port(col: &str) -> (r: String)
    ensures
        r@ == spec_port(col@),
{
    let v = chars_of(col);
    let mut r = String::new();
    push_str(&mut r, "col_");
    let ghost start = r@;
    let mut i: usize = 0;
    while i < v.len()
        invariant
            v@ == col@,
            i <= v.len(),
            start == "col_"@,
            r@ == start + col@.take(i as int).map_values(|c: char| port_char(c)),
        decreases v.len() - i,
    {
        let c = v[i];
        if ascii_alnum(c) {
            push_char(&mut r, c);
        } else {
            push_char(&mut r, '_');
        }
        assert(col@.take(i + 1).map_values(|c: char| port_char(c)) =~= col@.take(i as int).map_values(
            |c: char| port_char(c),
        ).push(port_char(col@[i as int])));
        i = i + 1;
    }
    assert(col@.take(i as int) =~= col@);
    r
}

fn node_port(schema: &Schema, table: &str, col: &str) -> (r: String)
    ensures
        r@ == spec_node_port(schema@, table@, col@),
{
    match schema.get(table) {
        Some(t) => {
            let mut i: usize = 0;
            while i < t.columns.len()
                invariant
                    lookup(schema@, table@) == Some(*t),
                    i <= t.columns.len(),
                    forall|k: int| 0 <= k < i ==> !eq_ignore_case((#[trigger] t.columns@[k]).name@, col@),
                decreases t.columns.len() - i,
            {
                if eq_ignore_ascii_case(t.columns[i].name.as_str(), col) {
                    assert(has_column_like(*t, col@));
                    let mut r = String::new();
                    push_char(&mut r, ':');
                    let p = port(col);
                    push_str(&mut r, p.as_str());
                    return r;
                }
                i = i + 1;
            }
            String::new()
        },
        None => String::new(),
    }
}

fn cell(table: &Table, c: &Column) -> (r: String)
    ensures
        r@ == spec_cell(*table, *c),
{
    let name = esc(c.name.as_str());
    let mut cell = String::new();
    if c.primary_key {
        push_str(&mut cell, "<b>");
        push_str(&mut cell, name.as_str());
        push_str(&mut cell, "</b>");
    } else {
        push_str(&mut cell, name.as_str());
    }
    let labels = table.column_key_labels(c);
    if labels.len() > 0 {
        push_char(&mut cell, ' ');
        let joined = join_strings(&labels, ", ");
        push_str(&mut cell, joined.as_str());
    }
    if c.data_type.as_str().unicode_len() > 0 {
        push_str(&mut cell, " : ");
        let ty = esc(c.data_type.as_str());
        push_str(&mut cell, ty.as_str());
    }
    assert(cell@ =~= spec_cell(*table, *c));
    cell
}

fn node(table: &Table) -> (r: String)
    ensures
        r@ == spec_node(*table),
{
    let mut s = String::new();
    push_str(&mut s, "  ");
    let tid = id(table.name.as_str());
    push_str(&mut s, tid.as_str());
    push_str(&mut s, " [label=<<table border=\"1\" cellborder=\"1\" cellspacing=\"0\">");
    push_str(&mut s, "<tr><td><b>");
    let tname = esc(table.name.as_str());
    push_str(&mut s, tname.as_str());
    push_str(&mut s, "</b></td></tr>");
    let ghost head = s@;
    let mut i: usize = 0;
    while i < table.columns.len()
        invariant
            i <= table.columns.len(),
            s@ == head + spec_rows(*table, table.columns@.take(i as int)),
        decreases table.columns.len() - i,
    {
        let c = &table.columns[i];
        push_str(&mut s, "<tr><td port=\"");
        let p = port(c.name.as_str());
        push_str(&mut s, p.as_str());
        push_str(&mut s, "\">");
        let text = cell(table, c);
        push_str(&mut s, text.as_str());
        push_str(&mut s, "</td></tr>");
        assert(table.columns@.take(i + 1).drop_last() =~= table.columns@.take(i as int));
        assert(s@ =~= head + spec_rows(*table, table.columns@.take(i + 1)));
        i = i + 1;
    }
    assert(table.columns@.take(i as int) =~= table.columns@);
    push_str(&mut s, "</table>>];");
    assert(s@ =~= spec_node(*table));
    s
}

/// The Graphviz document of a schema.
pub fn render(schema: &Schema) -> (out: String)
    ensures
        out@ == spec_render(schema@),
{
    let tables = schema.tables();
    let junctions = schema.collapsible_junctions();
    let ghost all = schema@;
    let mut out = String::new();
    push_str(&mut out, "digraph erd {\n  rankdir=LR;\n  node [shape=plaintext];\n");
    let ghost head = out@;
    let mut i: usize = 0;
    while i < tables.len()
        invariant
            tables@ == all,
            schema@ == all,
            views(junctions@) == junction_names(all),
            i <= tables.len(),
            out@ == head + spec_nodes(all, all.take(i as int)),
        decreases tables.len() - i,
    {
        let t = &tables[i];
        if !contains_name(&junctions, &t.name) {
            let n = node(t);
            push_str(&mut out, n.as_str());
            push_char(&mut out, '\n');
        }
        assert(all.take(i + 1).drop_last() =~= all.take(i as int));
        assert(out@ =~= head + spec_nodes(all, all.take(i + 1)));
        i = i + 1;
    }
    assert(all.take(i as int) =~= all);
    let ghost head2 = out@;
    let mut i: usize = 0;
    while i < tables.len()
        invariant
            tables@ == all,
            schema@ == all,
            views(junctions@) == junction_names(all),
            i <= tables.len(),
            out@ == head2 + spec_edges(all, all.take(i as int)),
        decreases tables.len() - i,
    {
        let t = &tables[i];
        let ghost before = out@;
        if !contains_name(&junctions, &t.name) {
            let mut j: usize = 0;
            while j < t.foreign_keys.len()
                invariant
                    tables@ == all,
                    schema@ == all,
                    views(junctions@) == junction_names(all),
                    i < tables.len(),
                    *t == all[i as int],
                    j <= t.foreign_keys.len(),
                    out@ == before + spec_fk_edges(all, t.name@, t.foreign_keys@.take(j as int)),
                decreases t.foreign_keys.len() - j,
            {
                let fk = &t.foreign_keys[j];
                let ghost before_fk = out@;
                if !contains_name(&junctions, &fk.to_table) {
                    push_str(&mut out, "  ");
                    let a = id(t.name.as_str());
                    push_str(&mut out, a.as_str());
                    let pa = node_port(schema, t.name.as_str(), fk.from_column.as_str());
                    push_str(&mut out, pa.as_str());
                    push_str(&mut out, " -> ");
                    let b = id(fk.to_table.as_str());
                    push_str(&mut out, b.as_str());
                    let pb = node_port(schema, fk.to_table.as_str(), fk.to_column.as_str());
                    push_str(&mut out, pb.as_str());
                    push_str(&mut out, " [taillabel=\"*\", headlabel=\"1\"];\n");
                    assert(out@ =~= before_fk + spec_fk_edge(all, t.name@, *fk));
                }
                assert(t.foreign_keys@.take(j + 1).drop_last() =~= t.foreign_keys@.take(j as int));
                assert(out@ =~= before + spec_fk_edges(all, t.name@, t.foreign_keys@.take(j + 1)));
                j = j + 1;
            }
            assert(t.foreign_keys@.take(j as int) =~= t.foreign_keys@);
        }
        assert(all.take(i + 1).drop_last() =~= all.take(i as int));
        assert(out@ =~= head2 + spec_edges(all, all.take(i + 1)));
        i = i + 1;
    }
    assert(all.take(i as int) =~= all);
    let ghost head3 = out@;
    let mut i: usize = 0;
    while i < tables.len()
        invariant
            tables@ == all,
            schema@ == all,
            views(junctions@) == junction_names(all),
            i <= tables.len(),
            out@ == head3 + spec_junction_edges(all.take(i as int)),
        decreases tables.len() - i,
    {
        let t = &tables[i];
        let ghost before = out@;
        proof {
            lemma_junction_names(all, t.name@);
        }
        if let Some((a, b)) = t.junction_foreign_keys() {
            push_str(&mut out, "  ");
            let x = id(a.to_table.as_str());
            push_str(&mut out, x.as_str());
            push_str(&mut out, " -> ");
            let y = id(b.to_table.as_str());
            push_str(&mut out, y.as_str());
            push_str(&mut out, " [dir=both, arrowtail=crow, arrowhead=crow];\n");
            assert(out@ =~= before + spec_junction_edge(*t));
        }
        assert(all.take(i + 1).drop_last() =~= all.take(i as int));
        assert(out@ =~= head3 + spec_junction_edges(all.take(i + 1)));
        i = i + 1;
    }
    assert(all.take(i as int) =~= all);
    push_str(&mut out, "}\n");
    assert(out@ =~= spec_render(all));
    out
}

proof fn lemma_fk_edges_has(all: Seq<Table>, from: Seq<char>, fks: Seq<ForeignKey>, j: int)
    requires
        0 <= j < fks.len(),
        !junction_names(all).contains(fks[j].to_table@),
    ensures
        occurs_in(spec_fk_edge(all, from, fks[j]), spec_fk_edges(all, from, fks)),
    decreases fks.len(),
{
    let pre = spec_fk_edges(all, from, fks.drop_last());
    let tail = if junction_names(all).contains(fks.last().to_table@) {
        seq![]
    } else {
        spec_fk_edge(all, from, fks.last())
    };
    if j < fks.len() - 1 {
        assert(fks.drop_last()[j] == fks[j]);
        lemma_fk_edges_has(all, from, fks.drop_last(), j);
        lemma_occurs_concat(spec_fk_edge(all, from, fks[j]), pre, tail);
    } else {
        lemma_occurs_self(spec_fk_edge(all, from, fks[j]));
        lemma_occurs_concat(spec_fk_edge(all, from, fks[j]), pre, tail);
    }
}

proof fn lemma_edges_has(all: Seq<Table>, ts: Seq<Table>, i: int, j: int)
    requires
        0 <= i < ts.len(),
        !junction_names(all).contains(ts[i].name@),
        0 <= j < ts[i].foreign_keys.len(),
        !junction_names(all).contains(ts[i].foreign_keys@[j].to_table@),
    ensures
        occurs_in(spec_fk_edge(all, ts[i].name@, ts[i].foreign_keys@[j]), spec_edges(all, ts)),
    decreases ts.len(),
{
    let e = spec_fk_edge(all, ts[i].name@, ts[i].foreign_keys@[j]);
    let pre = spec_edges(all, ts.drop_last());
    let tail = if junction_names(all).contains(ts.last().name@) {
        seq![]
    } else {
        spec_fk_edges(all, ts.last().name@, ts.last().foreign_keys@)
    };
    if i < ts.len() - 1 {
        assert(ts.drop_last()[i] == ts[i]);
        lemma_edges_has(all, ts.drop_last(), i, j);
    } else {
        lemma_fk_edges_has(all, ts[i].name@, ts[i].foreign_keys@, j);
    }
    lemma_occurs_concat(e, pre, tail);
}

proof fn lemma_junction_edges_has(ts: Seq<Table>, i: int)
    requires
        0 <= i < ts.len(),
        junction_pair(ts[i]) is Some,
    ensures
        occurs_in(spec_junction_edge(ts[i]), spec_junction_edges(ts)),
    decreases ts.len(),
{
    let e = spec_junction_edge(ts[i]);
    let pre = spec_junction_edges(ts.drop_last());
    let tail = if junction_pair(ts.last()) is Some {
        spec_junction_edge(ts.last())
    } else {
        seq![]
    };
    if i < ts.len() - 1 {
        assert(ts.drop_last()[i] == ts[i]);
        lemma_junction_edges_has(ts.drop_last(), i);
    } else {
        lemma_occurs_self(e);
    }
    lemma_occurs_concat(e, pre, tail);
}

/// Every foreign key of a table that is not a junction table, to a table
/// that is not one either, is drawn as an edge from the referencing
/// table's column to the referenced table's column, with many (`*`) at the
/// referencing end and one (`1`) at the referenced end.
pub proof fn lemma_fk_edge_drawn(ts: Seq<Table>, i: int, j: int)
    requires
        0 <= i < ts.len(),
        !junction_names(ts).contains(ts[i].name@),
        0 <= j < ts[i].foreign_keys.len(),
        !junction_names(ts).contains(ts[i].foreign_keys@[j].to_table@),
    ensures
        occurs_in(
            "  "@ + spec_id(ts[i].name@) + spec_node_port(ts, ts[i].name@, ts[i].foreign_keys@[j].from_column@)
                + " -> "@ + spec_id(ts[i].foreign_keys@[j].to_table@) + spec_node_port(
                ts,
                ts[i].foreign_keys@[j].to_table@,
                ts[i].foreign_keys@[j].to_column@,
            ) + " [taillabel=\"*\", headlabel=\"1\"];\n"@,
            spec_render(ts),
        ),
{
    let fk = ts[i].foreign_keys@[j];
    let e = spec_fk_edge(ts, ts[i].name@, fk);
    assert(e == "  "@ + spec_id(ts[i].name@) + spec_node_port(ts, ts[i].name@, fk.from_column@) + " -> "@ + spec_id(
        fk.to_table@,
    ) + spec_node_port(ts, fk.to_table@, fk.to_column@) + " [taillabel=\"*\", headlabel=\"1\"];\n"@);
    lemma_edges_has(ts, ts, i, j);
    let head = "digraph erd {\n  rankdir=LR;\n  node [shape=plaintext];\n"@ + spec_nodes(ts, ts);
    lemma_occurs_concat(e, head, spec_edges(ts, ts));
    lemma_occurs_concat(e, head + spec_edges(ts, ts), spec_junction_edges(ts));
    lemma_occurs_concat(e, head + spec_edges(ts, ts) + spec_junction_edges(ts), "}\n"@);
}

/// Every junction table is drawn as one edge, with crow's feet at both
/// ends, from the table of its first key to the table of its second.
pub proof fn lemma_junction_edge_drawn(ts: Seq<Table>, i: int)
    requires
        0 <= i < ts.len(),
        junction_pair(ts[i]) is Some,
    ensures
        occurs_in(
            "  "@ + spec_id(ts[i].foreign_keys@[0].to_table@) + " -> "@ + spec_id(ts[i].foreign_keys@[1].to_table@)
                + " [dir=both, arrowtail=crow, arrowhead=crow];\n"@,
            spec_render(ts),
        ),
{
    let e = spec_junction_edge(ts[i]);
    lemma_junction_edges_has(ts, i);
    let head = "digraph erd {\n  rankdir=LR;\n  node [shape=plaintext];\n"@ + spec_nodes(ts, ts) + spec_edges(ts, ts);
    lemma_occurs_concat(e, head, spec_junction_edges(ts));
    lemma_occurs_concat(e, head + spec_junction_edges(ts), "}\n"@);
}

} // verus!
