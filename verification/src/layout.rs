//! Placement of the table boxes of the text diagram.
//!
//! `plan` says which boxes there are, how large each is and which edges join
//! them; a layered graph layout then places the joined boxes, and `compute`
//! turns those placements into the final boxes: each layer packed tight,
//! and the boxes without edges set out in rows below the rest.
use vstd::prelude::*;
use crate::schema::{
    Column, ForeignKey, Schema, Table, first_pk_at, junction_names, junction_pair,
    lemma_has_table, lemma_junction_names, lookup, table_index,
};
use crate::emit::route::{end_fits, find_node, lemma_find_node};
use crate::text::{
    char_count, chars_lt, contains_name, push_char, push_str, sorted_insert, strictly_sorted,
    views,
};

verus! {

#[derive(Debug, Clone)]
pub struct NodeBox {
    pub name: String,
    pub x: i64,
    pub y: i64,
    pub w: usize,
    pub h: usize,
    pub lines: Vec<String>,
}

#[derive(Debug, Clone)]
pub struct EdgeRoute {
    pub from: String,
    pub to: String,
    pub from_line: usize,
    pub to_line: usize,
    pub bidirectional: bool,
}

#[derive(Debug, Clone)]
pub struct Layout {
    pub nodes: Vec<NodeBox>,
    pub edges: Vec<EdgeRoute>,
}

/// The text of a column's line in its box: the name, ` PK` for a key
/// column, and the type.
pub open spec fn column_text(c: Column) -> Seq<char> {
    c.name@ + (if c.primary_key {
        " PK"@
    } else {
        seq![]
    }) + (if c.data_type@.len() > 0 {
        seq![' '] + c.data_type@
    } else {
        seq![]
    })
}

/// The lines of a box: the table's name, then a line per column; `?` for a
/// table that the schema does not hold.
pub open spec fn spec_box_lines(name: Seq<char>, t: Option<Table>) -> Seq<Seq<char>> {
    seq![name] + match t {
        Some(t) => t.columns@.map_values(|c: Column| column_text(c)),
        None => seq!["?"@],
    }
}

/// The length of the longest line.
pub open spec fn max_len(lines: Seq<Seq<char>>) -> nat
    decreases lines.len(),
{
    if lines.len() == 0 {
        0
    } else {
        let m = max_len(lines.drop_last());
        if lines.last().len() > m {
            lines.last().len()
        } else {
            m
        }
    }
}

/// A text whose length leaves room for a box's margins in a `usize`.
pub open spec fn fits4(s: Seq<char>) -> bool {
    s.len() + 4 <= usize::MAX
}

/// What must fit in a `usize` for a table's box: its name, each column's
/// line, the names of the tables it refers to, and its number of lines
/// with the borders.
pub open spec fn table_lines_fit(t: Table) -> bool {
    &&& fits4(t.name@)
    &&& t.columns.len() + 4 <= usize::MAX
    &&& forall|j: int| 0 <= j < t.columns.len() ==> fits4(column_text(#[trigger] t.columns@[j]))
    &&& forall|j: int| 0 <= j < t.foreign_keys.len() ==> fits4((#[trigger] t.foreign_keys@[j]).to_table@)
}

/// Every table's box fits in a `usize`.
pub open spec fn lines_fit(ts: Seq<Table>) -> bool {
    forall|i: int| 0 <= i < ts.len() ==> table_lines_fit(#[trigger] ts[i])
}

/// Width and height of a box: room for the longest line and a border and
/// space on each side, at least 8 wide; a line each, the borders, and a
/// rule under the name when there are more lines.
pub open spec fn spec_node_size(lines: Seq<Seq<char>>) -> (nat, nat) {
    let w = max_len(lines) + 4;
    (
        if w < 8 {
            8
        } else {
            w
        },
        if lines.len() > 1 {
            lines.len() + 3
        } else {
            lines.len() + 2
        },
    )
}

/// Column `i` is the first column of `t` called `col`.
pub open spec fn first_column_named(t: Table, col: Seq<char>, i: int) -> bool {
    &&& 0 <= i < t.columns.len()
    &&& t.columns@[i].name@ == col
    &&& forall|j: int| 0 <= j < i ==> (#[trigger] t.columns@[j]).name@ != col
}

/// The line of a box that shows column `col`: one past the column's
/// position, or the name line's neighbour 1 when the table or the column
/// is missing.
pub open spec fn spec_column_line(t: Option<Table>, col: Seq<char>) -> int {
    match t {
        Some(t) => if exists|i: int| first_column_named(t, col, i) {
            (choose|i: int| first_column_named(t, col, i)) + 1
        } else {
            1
        },
        None => 1,
    }
}

/// The line of a box that shows the table's first key column, or 1.
pub open spec fn spec_pk_line(t: Option<Table>) -> int {
    match t {
        Some(t) => if exists|i: int| first_pk_at(t, i) {
            (choose|i: int| first_pk_at(t, i)) + 1
        } else {
            1
        },
        None => 1,
    }
}

/// The row of the diagram on which line `idx` of a box stands: the name
/// just below the top border, the other lines below the rule.
pub open spec fn spec_line_row(y: int, idx: int) -> int {
    if idx == 0 {
        y + 1
    } else {
        y + 2 + idx
    }
}

pub fn box_lines(name: &str, t: Option<&Table>) -> (lines: Vec<String>)
    ensures
        views(lines@) == spec_box_lines(name@, match t {
            Some(t) => Some(*t),
            None => None,
        }),
{
    let mut lines: Vec<String> = Vec::new();
    lines.push(String::from_str(name));
    match t {
        Some(tb) => {
            let t = tb;
            let mut i: usize = 0;
            while i < t.columns.len()
                invariant
                    i <= t.columns.len(),
                    t == tb,
                    views(lines@) == seq![name@] + t.columns@.take(i as int).map_values(
                        |c: Column| column_text(c),
                    ),
                decreases t.columns.len() - i,
            {
                let c = &t.columns[i];
                let mut s = c.name.clone();
                if c.primary_key {
                    push_str(&mut s, " PK");
                }
                if char_count(c.data_type.as_str()) > 0 {
                    push_char(&mut s, ' ');
                    push_str(&mut s, c.data_type.as_str());
                }
                assert(s@ =~= column_text(*c));
                let ghost before = views(lines@);
                lines.push(s);
                assert(views(lines@) =~= before.push(column_text(*c)));
                assert(t.columns@.take(i + 1).map_values(|c: Column| column_text(c))
                    =~= t.columns@.take(i as int).map_values(|c: Column| column_text(c)).push(
                    column_text(t.columns@[i as int]),
                ));
                assert(views(lines@) =~= seq![name@] + t.columns@.take(i + 1).map_values(
                    |c: Column| column_text(c),
                ));
                i = i + 1;
            }
            assert(t.columns@.take(i as int) =~= t.columns@);
        },
        None => {
            lines.push(String::from_str("?"));
            assert(views(lines@) =~= spec_box_lines(name@, None));
        },
    }
    lines
}

pub proof fn lemma_max_len(lines: Seq<Seq<char>>, k: int)
    requires
        0 <= k < lines.len(),
    ensures
        lines[k].len() <= max_len(lines),
    decreases lines.len(),
{
    if k < lines.len() - 1 {
        lemma_max_len(lines.drop_last(), k);
    }
}

pub proof fn lemma_max_len_bound(lines: Seq<Seq<char>>, b: nat)
    requires
        forall|k: int| 0 <= k < lines.len() ==> (#[trigger] lines[k]).len() <= b,
    ensures
        max_len(lines) <= b,
    decreases lines.len(),
{
    if lines.len() > 0 {
        lemma_max_len_bound(lines.drop_last(), b);
    }
}

pub fn node_size(lines: &Vec<String>) -> (r: (usize, usize))
    requires
        lines.len() + 3 <= usize::MAX,
        forall|k: int| 0 <= k < lines.len() ==> fits4((#[trigger] lines@[k])@),
    ensures
        r.0 == spec_node_size(views(lines@)).0,
        r.1 == spec_node_size(views(lines@)).1,
{
    let mut m: usize = 0;
    let mut i: usize = 0;
    while i < lines.len()
        invariant
            i <= lines.len(),
            lines.len() + 3 <= usize::MAX,
            forall|k: int| 0 <= k < lines.len() ==> fits4((#[trigger] lines@[k])@),
            m == max_len(views(lines@).take(i as int)),
            m + 4 <= usize::MAX,
        decreases lines.len() - i,
    {
        let n = char_count(lines[i].as_str());
        assert(views(lines@).take(i + 1).drop_last() =~= views(lines@).take(i as int));
        if n > m {
            m = n;
        }
        i = i + 1;
    }
    assert(views(lines@).take(i as int) =~= views(lines@));
    let w = m + 4;
    let h = if lines.len() > 1 {
        lines.len() + 3
    } else {
        lines.len() + 2
    };
    (if w < 8 {
        8
    } else {
        w
    }, h)
}

pub fn column_line(t: Option<&Table>, col: &str) -> (r: usize)
    ensures
        r == spec_column_line(match t {
            Some(t) => Some(*t),
            None => None,
        }, col@),
{
    match t {
        Some(tb) => {
            let mut i: usize = 0;
            while i < tb.columns.len()
                invariant
                    i <= tb.columns.len(),
                    t == Some(tb),
                    forall|j: int| 0 <= j < i ==> (#[trigger] tb.columns@[j]).name@ != col@,
                decreases tb.columns.len() - i,
            {
                if crate::text::str_eq(tb.columns[i].name.as_str(), col) {
                    proof {
                        assert(first_column_named(*tb, col@, i as int));
                        let k = choose|k: int| first_column_named(*tb, col@, k);
                        if k < i {
                        }
                        if k > i {
                            assert(tb.columns@[i as int].name@ != col@);
                        }
                    }
                    return i + 1;
                }
                i = i + 1;
            }
            1
        },
        None => 1,
    }
}

pub fn pk_line(t: Option<&Table>) -> (r: usize)
    ensures
        r == spec_pk_line(match t {
            Some(t) => Some(*t),
            None => None,
        }),
{
    match t {
        Some(tb) => {
            let mut i: usize = 0;
            while i < tb.columns.len()
                invariant
                    i <= tb.columns.len(),
                    t == Some(tb),
                    forall|j: int| 0 <= j < i ==> !(#[trigger] tb.columns@[j]).primary_key,
                decreases tb.columns.len() - i,
            {
                if tb.columns[i].primary_key {
                    proof {
                        assert(first_pk_at(*tb, i as int));
                        let k = choose|k: int| first_pk_at(*tb, k);
                        if k < i {
                        }
                        if k > i {
                            assert(!tb.columns@[i as int].primary_key);
                        }
                    }
                    return i + 1;
                }
                i = i + 1;
            }
            1
        },
        None => 1,
    }
}

/// The row of the diagram on which line `idx` of box `n` stands.
pub fn line_row(n: &NodeBox, idx: usize) -> (r: i64)
    requires
        idx <= i64::MAX,
        n.y + 2 + idx <= i64::MAX,
    ensures
        r == spec_line_row(n.y as int, idx as int),
{
    if idx == 0 {
        n.y + 1
    } else {
        n.y + 2 + idx as i64
    }
}

/// What the diagram says of an edge: the two boxes, the lines they leave
/// and enter at, and whether it has arrows at both ends.
pub type EdgeView = (Seq<char>, Seq<char>, int, int, bool);

pub open spec fn edge_view(e: EdgeRoute) -> EdgeView {
    (e.from@, e.to@, e.from_line as int, e.to_line as int, e.bidirectional)
}

/// The name belongs to a junction table.
pub open spec fn in_junction(ts: Seq<Table>, n: Seq<char>) -> bool {
    junction_names(ts).contains(n)
}

/// The table is a junction table and `n` is one of the two it joins.
pub open spec fn junction_target(t: Table, n: Seq<char>) -> bool {
    match junction_pair(t) {
        Some((a, b)) => n == a || n == b,
        None => false,
    }
}

/// Among the first `k` tables, one that is not a junction table is called
/// `n` or refers to a table called `n`, and `n` is not a junction table; or
/// one is a junction table that joins a table called `n`.
pub open spec fn node_name_in(ts: Seq<Table>, k: int, n: Seq<char>) -> bool {
    ||| (!in_junction(ts, n) && exists|i: int|
        0 <= i < k && !in_junction(ts, (#[trigger] ts[i]).name@) && (ts[i].name@ == n || exists|j: int|
            0 <= j < ts[i].foreign_keys.len() && (#[trigger] ts[i].foreign_keys@[j]).to_table@ == n))
    ||| exists|i: int| 0 <= i < k && junction_target(#[trigger] ts[i], n)
}

/// The diagram has a box called `n`.
pub open spec fn is_node_name(ts: Seq<Table>, n: Seq<char>) -> bool {
    node_name_in(ts, ts.len() as int, n)
}

/// The edge of a foreign key of table `t`.
pub open spec fn spec_fk_edge(ts: Seq<Table>, t: Table, fk: ForeignKey) -> EdgeView {
    (
        t.name@,
        fk.to_table@,
        spec_column_line(lookup(ts, t.name@), fk.from_column@),
        spec_column_line(lookup(ts, fk.to_table@), fk.to_column@),
        false,
    )
}

/// Edges of a table's foreign keys that do not point at a junction table.
pub open spec fn spec_fk_edges_of(ts: Seq<Table>, t: Table, fks: Seq<ForeignKey>) -> Seq<EdgeView>
    decreases fks.len(),
{
    if fks.len() == 0 {
        seq![]
    } else {
        spec_fk_edges_of(ts, t, fks.drop_last()) + if in_junction(ts, fks.last().to_table@) {
            seq![]
        } else {
            seq![spec_fk_edge(ts, t, fks.last())]
        }
    }
}

/// Foreign-key edges of the tables that are not junction tables.
pub open spec fn spec_fk_edge_list(ts: Seq<Table>, prefix: Seq<Table>) -> Seq<EdgeView>
    decreases prefix.len(),
{
    if prefix.len() == 0 {
        seq![]
    } else {
        spec_fk_edge_list(ts, prefix.drop_last()) + if in_junction(ts, prefix.last().name@) {
            seq![]
        } else {
            spec_fk_edges_of(ts, prefix.last(), prefix.last().foreign_keys@)
        }
    }
}

/// A two-headed edge per junction table, between the key lines of the two
/// tables it joins.
pub open spec fn spec_junction_edge_list(ts: Seq<Table>, prefix: Seq<Table>) -> Seq<EdgeView>
    decreases prefix.len(),
{
    if prefix.len() == 0 {
        seq![]
    } else {
        spec_junction_edge_list(ts, prefix.drop_last()) + match junction_pair(prefix.last()) {
            Some((a, b)) => seq![(a, b, spec_pk_line(lookup(ts, a)), spec_pk_line(lookup(ts, b)), true)],
            None => seq![],
        }
    }
}

/// The edges of the diagram: foreign keys first, then junctions.
pub open spec fn spec_plan_edges(ts: Seq<Table>) -> Seq<EdgeView> {
    spec_fk_edge_list(ts, ts) + spec_junction_edge_list(ts, ts)
}

/// Some edge starts or ends at `n`.
pub open spec fn is_edge_end(es: Seq<EdgeView>, n: Seq<char>) -> bool {
    exists|k: int| 0 <= k < es.len() && ((#[trigger] es[k]).0 == n || es[k].1 == n)
}

/// Width and height of the box called `n`.
pub open spec fn box_size(ts: Seq<Table>, n: Seq<char>) -> (nat, nat) {
    spec_node_size(spec_box_lines(n, lookup(ts, n)))
}

/// What the boxes are and how they join, before they are placed: the box
/// names in order, the edges, the names of the boxes that edges join (the
/// ones handed to the layered layout) and their sizes.
pub struct Plan {
    pub names: Vec<String>,
    pub edges: Vec<EdgeRoute>,
    pub connected: Vec<String>,
    pub sizes: Vec<(usize, usize)>,
}

pub open spec fn plan_ok(ts: Seq<Table>, p: Plan) -> bool {
    &&& strictly_sorted(views(p.names@))
    &&& forall|n: Seq<char>| #[trigger] views(p.names@).contains(n) <==> is_node_name(ts, n)
    &&& p.edges@.map_values(|e: EdgeRoute| edge_view(e)) == spec_plan_edges(ts)
    &&& strictly_sorted(views(p.connected@))
    &&& forall|n: Seq<char>| #[trigger] views(p.connected@).contains(n) <==> is_edge_end(spec_plan_edges(ts), n)
    &&& forall|n: Seq<char>| #[trigger] views(p.connected@).contains(n) ==> views(p.names@).contains(n)
    &&& p.sizes@.len() == p.connected@.len()
    &&& forall|k: int|
        0 <= k < p.sizes@.len() ==> (#[trigger] p.sizes@[k]).0 == box_size(ts, p.connected@[k]@).0
            && p.sizes@[k].1 == box_size(ts, p.connected@[k]@).1
}

proof fn lemma_lookup_fits(ts: Seq<Table>, n: Seq<char>)
    requires
        lines_fit(ts),
    ensures
        lookup(ts, n) matches Some(t) ==> table_lines_fit(t),
{
    lemma_has_table(ts, n);
    if table_index(ts, n) >= 0 {
        let i = table_index(ts, n);
        assert(table_lines_fit(ts[i]));
    }
}

proof fn lemma_bounded_insert(before: Seq<String>, after: Seq<String>, s: Seq<char>)
    requires
        forall|k: int| 0 <= k < before.len() ==> fits4((#[trigger] before[k])@),
        forall|x: Seq<char>| #[trigger] views(after).contains(x) <==> views(before).contains(x) || x == s,
        fits4(s),
    ensures
        forall|k: int| 0 <= k < after.len() ==> fits4((#[trigger] after[k])@),
{
    assert forall|k: int| 0 <= k < after.len() implies fits4((#[trigger] after[k])@) by {
        assert(views(after)[k] == after[k]@);
        assert(views(after).contains(after[k]@));
        if after[k]@ != s {
            let q = choose|q: int| 0 <= q < views(before).len() && views(before)[q] == after[k]@;
            assert(fits4(before[q]@));
        }
    }
}

proof fn lemma_fk_edges_of(ts: Seq<Table>, t: Table, fks: Seq<ForeignKey>, k: int)
    requires
        0 <= k < spec_fk_edges_of(ts, t, fks).len(),
    ensures
        spec_fk_edges_of(ts, t, fks)[k].0 == t.name@,
        !in_junction(ts, spec_fk_edges_of(ts, t, fks)[k].1),
        exists|j: int| 0 <= j < fks.len() && (#[trigger] fks[j]).to_table@ == spec_fk_edges_of(ts, t, fks)[k].1,
    decreases fks.len(),
{
    let pre = spec_fk_edges_of(ts, t, fks.drop_last());
    if k < pre.len() {
        lemma_fk_edges_of(ts, t, fks.drop_last(), k);
        let j = choose|j: int| 0 <= j < fks.drop_last().len() && (#[trigger] fks.drop_last()[j]).to_table@ == pre[k].1;
        assert(fks[j] == fks.drop_last()[j]);
    } else {
        assert(fks[fks.len() - 1] == fks.last());
    }
}

proof fn lemma_fk_edge_list(ts: Seq<Table>, prefix: Seq<Table>, k: int)
    requires
        0 <= k < spec_fk_edge_list(ts, prefix).len(),
    ensures
        exists|i: int|
            0 <= i < prefix.len() && !in_junction(ts, (#[trigger] prefix[i]).name@) && spec_fk_edge_list(ts, prefix)[k].0
                == prefix[i].name@ && !in_junction(ts, spec_fk_edge_list(ts, prefix)[k].1) && exists|j: int|
                0 <= j < prefix[i].foreign_keys.len() && (#[trigger] prefix[i].foreign_keys@[j]).to_table@
                    == spec_fk_edge_list(ts, prefix)[k].1,
    decreases prefix.len(),
{
    let pre = spec_fk_edge_list(ts, prefix.drop_last());
    let e = spec_fk_edge_list(ts, prefix)[k];
    if k < pre.len() {
        lemma_fk_edge_list(ts, prefix.drop_last(), k);
        let i = choose|i: int|
            0 <= i < prefix.drop_last().len() && !in_junction(ts, (#[trigger] prefix.drop_last()[i]).name@)
                && pre[k].0 == prefix.drop_last()[i].name@ && !in_junction(ts, pre[k].1) && exists|j: int|
                0 <= j < prefix.drop_last()[i].foreign_keys.len()
                    && (#[trigger] prefix.drop_last()[i].foreign_keys@[j]).to_table@ == pre[k].1;
        assert(prefix[i] == prefix.drop_last()[i]);
    } else {
        let t = prefix.last();
        lemma_fk_edges_of(ts, t, t.foreign_keys@, k - pre.len());
        assert(prefix[prefix.len() - 1] == t);
    }
}

proof fn lemma_junction_edge_list(ts: Seq<Table>, prefix: Seq<Table>, k: int)
    requires
        0 <= k < spec_junction_edge_list(ts, prefix).len(),
    ensures
        exists|i: int|
            0 <= i < prefix.len() && junction_pair(#[trigger] prefix[i]) == Some(
                (spec_junction_edge_list(ts, prefix)[k].0, spec_junction_edge_list(ts, prefix)[k].1),
            ),
    decreases prefix.len(),
{
    let pre = spec_junction_edge_list(ts, prefix.drop_last());
    if k < pre.len() {
        lemma_junction_edge_list(ts, prefix.drop_last(), k);
        let i = choose|i: int|
            0 <= i < prefix.drop_last().len() && junction_pair(#[trigger] prefix.drop_last()[i]) == Some(
                (pre[k].0, pre[k].1),
            );
        assert(prefix[i] == prefix.drop_last()[i]);
    } else {
        assert(prefix[prefix.len() - 1] == prefix.last());
    }
}

/// Every edge end of the diagram has a box.
pub proof fn lemma_edge_ends_named(ts: Seq<Table>, n: Seq<char>)
    requires
        is_edge_end(spec_plan_edges(ts), n),
    ensures
        is_node_name(ts, n),
{
    let es = spec_plan_edges(ts);
    let fl = spec_fk_edge_list(ts, ts);
    let k = choose|k: int| 0 <= k < es.len() && ((#[trigger] es[k]).0 == n || es[k].1 == n);
    if k < fl.len() {
        assert(es[k] == fl[k]);
        lemma_fk_edge_list(ts, ts, k);
        let i = choose|i: int|
            0 <= i < ts.len() && !in_junction(ts, (#[trigger] ts[i]).name@) && fl[k].0 == ts[i].name@ && !in_junction(
                ts,
                fl[k].1,
            ) && exists|j: int| 0 <= j < ts[i].foreign_keys.len() && (#[trigger] ts[i].foreign_keys@[j]).to_table@ == fl[k].1;
        assert(ts[i] == ts[i]);
    } else {
        let jl = spec_junction_edge_list(ts, ts);
        assert(es[k] == jl[k - fl.len()]);
        lemma_junction_edge_list(ts, ts, k - fl.len());
        let i = choose|i: int| 0 <= i < ts.len() && junction_pair(#[trigger] ts[i]) == Some((jl[k - fl.len()].0, jl[k - fl.len()].1));
        assert(junction_target(ts[i], n));
    }
}

/// The size of the box called `name`.
fn size_of(schema: &Schema, name: &String) -> (r: (usize, usize))
    requires
        lines_fit(schema@),
        fits4(name@),
    ensures
        r.0 == box_size(schema@, name@).0,
        r.1 == box_size(schema@, name@).1,
{
    let t = schema.get(name.as_str());
    let lines = box_lines(name.as_str(), t);
    proof {
        let lk = lookup(schema@, name@);
        reveal_strlit("?");
        assert(views(lines@) == spec_box_lines(name@, lk));
        lemma_lookup_fits(schema@, name@);
        assert forall|k: int| 0 <= k < lines.len() implies fits4((#[trigger] lines@[k])@) by {
            assert(views(lines@)[k] == lines@[k]@);
            if k == 0 {
                assert(views(lines@)[0] == name@);
            } else {
                match lk {
                    Some(tt) => {
                        assert(table_lines_fit(tt));
                        assert(views(lines@)[k] == column_text(tt.columns@[k - 1]));
                    },
                    None => {},
                }
            }
        }
        match lk {
            Some(tt) => {
                assert(table_lines_fit(tt));
                assert(views(lines@).len() == 1 + tt.columns@.len());
            },
            None => {},
        }
    }
    node_size(&lines)
}

/// The box names after the table `i`, from those before it.
proof fn lemma_name_step(ts: Seq<Table>, i: int, n: Seq<char>, before: Seq<Seq<char>>, mid: Seq<Seq<char>>, after: Seq<Seq<char>>)
    requires
        0 <= i < ts.len(),
        before.contains(n) <==> node_name_in(ts, i, n),
        mid.contains(n) <==> (before.contains(n) || (!in_junction(ts, ts[i].name@) && !in_junction(ts, n) && (n
            == ts[i].name@ || exists|q: int|
            0 <= q < ts[i].foreign_keys.len() && (#[trigger] ts[i].foreign_keys@[q]).to_table@ == n))),
        after.contains(n) <==> (mid.contains(n) || junction_target(ts[i], n)),
    ensures
        after.contains(n) <==> node_name_in(ts, i + 1, n),
{
    if node_name_in(ts, i + 1, n) {
        if !in_junction(ts, n) && exists|w: int|
            0 <= w < i + 1 && !in_junction(ts, (#[trigger] ts[w]).name@) && (ts[w].name@ == n || exists|j: int|
                0 <= j < ts[w].foreign_keys.len() && (#[trigger] ts[w].foreign_keys@[j]).to_table@ == n) {
            let w = choose|w: int|
                0 <= w < i + 1 && !in_junction(ts, (#[trigger] ts[w]).name@) && (ts[w].name@ == n || exists|j: int|
                    0 <= j < ts[w].foreign_keys.len() && (#[trigger] ts[w].foreign_keys@[j]).to_table@ == n);
            if w < i {
                assert(node_name_in(ts, i, n));
            }
        } else {
            let w = choose|w: int| 0 <= w < i + 1 && junction_target(#[trigger] ts[w], n);
            if w < i {
                assert(node_name_in(ts, i, n));
            }
        }
    }
    if after.contains(n) {
        if before.contains(n) {
            if !in_junction(ts, n) && exists|w: int|
                0 <= w < i && !in_junction(ts, (#[trigger] ts[w]).name@) && (ts[w].name@ == n || exists|j: int|
                    0 <= j < ts[w].foreign_keys.len() && (#[trigger] ts[w].foreign_keys@[j]).to_table@ == n) {
                let w = choose|w: int|
                    0 <= w < i && !in_junction(ts, (#[trigger] ts[w]).name@) && (ts[w].name@ == n || exists|j: int|
                        0 <= j < ts[w].foreign_keys.len() && (#[trigger] ts[w].foreign_keys@[j]).to_table@ == n);
                assert(ts[w] == ts[w]);
            } else {
                let w = choose|w: int| 0 <= w < i && junction_target(#[trigger] ts[w], n);
                assert(junction_target(ts[w], n));
            }
        } else if mid.contains(n) {
            assert(ts[i] == ts[i]);
        } else {
            assert(junction_target(ts[i], n));
        }
    }
}

/// Which boxes the diagram has, which edges join them, and the sizes of
/// the joined boxes.
pub fn plan(schema: &Schema) -> (p: Plan)
    requires
        lines_fit(schema@),
    ensures
        plan_ok(schema@, p),
        forall|k: int| 0 <= k < p.names.len() ==> fits4((#[trigger] p.names@[k])@),
        forall|k: int| 0 <= k < p.connected.len() ==> fits4((#[trigger] p.connected@[k])@),
{
    let tables = schema.tables();
    let junctions = schema.collapsible_junctions();
    let ghost ts = schema@;
    let mut names: Vec<String> = Vec::new();
    let mut i: usize = 0;
    while i < tables.len()
        invariant
            tables@ == ts,
            lines_fit(ts),
            views(junctions@) == junction_names(ts),
            i <= tables.len(),
            strictly_sorted(views(names@)),
            forall|n: Seq<char>| #[trigger] views(names@).contains(n) <==> node_name_in(ts, i as int, n),
            forall|k: int| 0 <= k < names.len() ==> fits4((#[trigger] names@[k])@),
        decreases tables.len() - i,
    {
        let t = &tables[i];
        assert(table_lines_fit(ts[i as int]));
        let ghost before = views(names@);
        if !contains_name(&junctions, &t.name) {
            let ghost b1 = names@;
            sorted_insert(&mut names, &t.name);
            proof {
                lemma_bounded_insert(b1, names@, t.name@);
            }
            let mut j: usize = 0;
            while j < t.foreign_keys.len()
                invariant
                    tables@ == ts,
                    lines_fit(ts),
                    views(junctions@) == junction_names(ts),
                    i < tables.len(),
                    *t == ts[i as int],
                    table_lines_fit(*t),
                    !in_junction(ts, t.name@),
                    j <= t.foreign_keys.len(),
                    strictly_sorted(views(names@)),
                    forall|n: Seq<char>| #[trigger] views(names@).contains(n) <==> (before.contains(n) || (
                    !in_junction(ts, n) && (n == t.name@ || exists|q: int|
                        0 <= q < j && (#[trigger] t.foreign_keys@[q]).to_table@ == n))),
                    forall|k: int| 0 <= k < names.len() ==> fits4((#[trigger] names@[k])@),
                decreases t.foreign_keys.len() - j,
            {
                let fk = &t.foreign_keys[j];
                if !contains_name(&junctions, &fk.to_table) {
                    let ghost b2 = names@;
                    sorted_insert(&mut names, &fk.to_table);
                    proof {
                        lemma_bounded_insert(b2, names@, fk.to_table@);
                    }
                }
                j = j + 1;
            }
        }
        let ghost mid = views(names@);
        assert(forall|n: Seq<char>| #[trigger] mid.contains(n) <==> (before.contains(n) || (!in_junction(ts, t.name@)
            && !in_junction(ts, n) && (n == t.name@ || exists|q: int|
            0 <= q < t.foreign_keys.len() && (#[trigger] t.foreign_keys@[q]).to_table@ == n))));
        match t.junction_targets() {
            Some((a, b)) => {
                proof {
                    assert(fits4(t.foreign_keys@[0].to_table@));
                    assert(fits4(t.foreign_keys@[1].to_table@));
                }
                let ghost b3 = names@;
                sorted_insert(&mut names, &a);
                proof {
                    lemma_bounded_insert(b3, names@, a@);
                }
                let ghost b4 = names@;
                sorted_insert(&mut names, &b);
                proof {
                    lemma_bounded_insert(b4, names@, b@);
                    assert(forall|n: Seq<char>| #[trigger] views(names@).contains(n) <==> (mid.contains(n)
                        || junction_target(*t, n)));
                }
            },
            None => {
                assert(forall|n: Seq<char>| #[trigger] views(names@).contains(n) <==> (mid.contains(n)
                    || junction_target(*t, n)));
            },
        }
        proof {
            assert forall|n: Seq<char>| #[trigger] views(names@).contains(n) <==> node_name_in(ts, i + 1, n) by {
                lemma_name_step(ts, i as int, n, before, mid, views(names@));
            }
        }
        i = i + 1;
    }
    let mut edges: Vec<EdgeRoute> = Vec::new();
    let mut i: usize = 0;
    while i < tables.len()
        invariant
            tables@ == ts,
            schema@ == ts,
            lines_fit(ts),
            views(junctions@) == junction_names(ts),
            i <= tables.len(),
            edges@.map_values(|e: EdgeRoute| edge_view(e)) == spec_fk_edge_list(ts, ts.take(i as int)),
            forall|k: int|
                0 <= k < edges.len() ==> fits4((#[trigger] edges@[k]).from@) && fits4(edges@[k].to@),
        decreases tables.len() - i,
    {
        let t = &tables[i];
        assert(table_lines_fit(ts[i as int]));
        let ghost before = edges@.map_values(|e: EdgeRoute| edge_view(e));
        if !contains_name(&junctions, &t.name) {
            let mut j: usize = 0;
            while j < t.foreign_keys.len()
                invariant
                    tables@ == ts,
                    schema@ == ts,
                    lines_fit(ts),
                    views(junctions@) == junction_names(ts),
                    i < tables.len(),
                    *t == ts[i as int],
                    table_lines_fit(*t),
                    j <= t.foreign_keys.len(),
                    edges@.map_values(|e: EdgeRoute| edge_view(e)) == before + spec_fk_edges_of(
                        ts,
                        *t,
                        t.foreign_keys@.take(j as int),
                    ),
                    forall|k: int|
                        0 <= k < edges.len() ==> fits4((#[trigger] edges@[k]).from@) && fits4(edges@[k].to@),
                decreases t.foreign_keys.len() - j,
            {
                let fk = &t.foreign_keys[j];
                let ghost b2 = edges@.map_values(|e: EdgeRoute| edge_view(e));
                if !contains_name(&junctions, &fk.to_table) {
                    let from_line = column_line(schema.get(t.name.as_str()), fk.from_column.as_str());
                    let to_line = column_line(schema.get(fk.to_table.as_str()), fk.to_column.as_str());
                    let e = EdgeRoute {
                        from: t.name.clone(),
                        to: fk.to_table.clone(),
                        from_line,
                        to_line,
                        bidirectional: false,
                    };
                    edges.push(e);
                    assert(edges@.map_values(|e: EdgeRoute| edge_view(e)) =~= b2.push(
                        spec_fk_edge(ts, *t, *fk),
                    ));
                } else {
                    assert(edges@.map_values(|e: EdgeRoute| edge_view(e)) =~= b2);
                }
                assert(t.foreign_keys@.take(j + 1).drop_last() =~= t.foreign_keys@.take(j as int));
                assert(edges@.map_values(|e: EdgeRoute| edge_view(e)) =~= before + spec_fk_edges_of(
                    ts,
                    *t,
                    t.foreign_keys@.take(j + 1),
                ));
                j = j + 1;
            }
            assert(t.foreign_keys@.take(j as int) =~= t.foreign_keys@);
        }
        assert(ts.take(i + 1).drop_last() =~= ts.take(i as int));
        assert(edges@.map_values(|e: EdgeRoute| edge_view(e)) =~= spec_fk_edge_list(ts, ts.take(i + 1)));
        i = i + 1;
    }
    assert(ts.take(i as int) =~= ts);
    let ghost fk_edges = edges@.map_values(|e: EdgeRoute| edge_view(e));
    let mut i: usize = 0;
    while i < tables.len()
        invariant
            tables@ == ts,
            schema@ == ts,
            lines_fit(ts),
            i <= tables.len(),
            fk_edges == spec_fk_edge_list(ts, ts),
            edges@.map_values(|e: EdgeRoute| edge_view(e)) == fk_edges + spec_junction_edge_list(
                ts,
                ts.take(i as int),
            ),
            forall|k: int|
                0 <= k < edges.len() ==> fits4((#[trigger] edges@[k]).from@) && fits4(edges@[k].to@),
        decreases tables.len() - i,
    {
        let t = &tables[i];
        assert(table_lines_fit(ts[i as int]));
        let ghost b2 = edges@.map_values(|e: EdgeRoute| edge_view(e));
        match t.junction_targets() {
            Some((a, b)) => {
                let from_line = pk_line(schema.get(a.as_str()));
                let to_line = pk_line(schema.get(b.as_str()));
                let e = EdgeRoute { from: a, to: b, from_line, to_line, bidirectional: true };
                edges.push(e);
                assert(edges@.map_values(|e: EdgeRoute| edge_view(e)) =~= b2.push(
                    edge_view(e),
                ));
            },
            None => {
                assert(edges@.map_values(|e: EdgeRoute| edge_view(e)) =~= b2);
            },
        }
        assert(ts.take(i + 1).drop_last() =~= ts.take(i as int));
        assert(edges@.map_values(|e: EdgeRoute| edge_view(e)) =~= fk_edges + spec_junction_edge_list(
            ts,
            ts.take(i + 1),
        ));
        i = i + 1;
    }
    assert(ts.take(i as int) =~= ts);
    let ghost es = spec_plan_edges(ts);
    assert(edges@.map_values(|e: EdgeRoute| edge_view(e)) == es);
    let mut connected: Vec<String> = Vec::new();
    let mut k: usize = 0;
    while k < edges.len()
        invariant
            edges@.map_values(|e: EdgeRoute| edge_view(e)) == es,
            k <= edges.len(),
            strictly_sorted(views(connected@)),
            forall|n: Seq<char>| #[trigger] views(connected@).contains(n) <==> is_edge_end(es.take(k as int), n),
            connected.len() <= 2 * k,
            forall|q: int|
                0 <= q < edges.len() ==> fits4((#[trigger] edges@[q]).from@) && fits4(edges@[q].to@),
            forall|q: int| 0 <= q < connected.len() ==> fits4((#[trigger] connected@[q])@),
        decreases edges.len() - k,
    {
        let ghost before = views(connected@);
        let ghost b0 = connected@;
        sorted_insert(&mut connected, &edges[k].from);
        let ghost b1 = connected@;
        sorted_insert(&mut connected, &edges[k].to);
        proof {
            assert(es[k as int] == edge_view(edges@[k as int]));
            assert forall|n: Seq<char>| #[trigger] views(connected@).contains(n) <==> is_edge_end(es.take(k + 1), n) by {
                if is_edge_end(es.take(k + 1), n) {
                    let w = choose|w: int| 0 <= w < k + 1 && ((#[trigger] es.take(k + 1)[w]).0 == n || es.take(k + 1)[w].1 == n);
                    if w < k {
                        assert(es.take(k as int)[w] == es.take(k + 1)[w]);
                        assert(is_edge_end(es.take(k as int), n));
                    }
                }
                if is_edge_end(es.take(k as int), n) {
                    let w = choose|w: int| 0 <= w < k && ((#[trigger] es.take(k as int)[w]).0 == n || es.take(k as int)[w].1 == n);
                    assert(es.take(k + 1)[w] == es.take(k as int)[w]);
                }
                if n == es[k as int].0 || n == es[k as int].1 {
                    assert(es.take(k + 1)[k as int] == es[k as int]);
                }
            }
            lemma_bounded_insert(b0, b1, edges@[k as int].from@);
            lemma_bounded_insert(b1, connected@, edges@[k as int].to@);
        }
        k = k + 1;
    }
    assert(es.take(k as int) =~= es);
    let mut sizes: Vec<(usize, usize)> = Vec::new();
    let mut k: usize = 0;
    while k < connected.len()
        invariant
            schema@ == ts,
            lines_fit(ts),
            k <= connected.len(),
            sizes@.len() == k,
            forall|q: int| 0 <= q < connected.len() ==> fits4((#[trigger] connected@[q])@),
            forall|q: int|
                0 <= q < k ==> (#[trigger] sizes@[q]).0 == box_size(ts, connected@[q]@).0 && sizes@[q].1
                    == box_size(ts, connected@[q]@).1,
        decreases connected.len() - k,
    {
        let sz = size_of(schema, &connected[k]);
        sizes.push(sz);
        k = k + 1;
    }
    proof {
        assert forall|n: Seq<char>| #[trigger] views(connected@).contains(n) implies views(names@).contains(n) by {
            lemma_edge_ends_named(ts, n);
        }
    }
    Plan { names, edges, connected, sizes }
}

/// Where the layered layout put a joined box: the top-left corner, and the
/// layer.
#[derive(Debug, Clone, Copy)]
pub struct Placement {
    pub x: i64,
    pub y: i64,
    pub rank: i32,
}

/// Box `a` goes before box `b`: a lower layer, or the same layer and not
/// lower down.
pub open spec fn key_le(ps: Seq<Placement>, a: int, b: int) -> bool {
    ps[a].rank < ps[b].rank || (ps[a].rank == ps[b].rank && ps[a].y <= ps[b].y)
}

/// `k` inserted into a sorted order after every box that goes before it.
pub open spec fn insert_sorted(ps: Seq<Placement>, s: Seq<int>, k: int) -> Seq<int>
    decreases s.len(),
{
    if s.len() == 0 {
        seq![k]
    } else if key_le(ps, s.last(), k) {
        s.push(k)
    } else {
        insert_sorted(ps, s.drop_last(), k).push(s.last())
    }
}

/// The joined boxes in drawing order: by layer, then from the top, boxes
/// that tie keeping their order (a stable sort).
pub open spec fn sort_order(ps: Seq<Placement>, n: nat) -> Seq<int>
    decreases n,
{
    if n == 0 {
        seq![]
    } else {
        insert_sorted(ps, sort_order(ps, (n - 1) as nat), n - 1)
    }
}

/// How many boxes at the front of `s` share the layer of the first.
pub open spec fn run_len(ps: Seq<Placement>, s: Seq<int>, r: i32) -> nat
    decreases s.len(),
{
    if s.len() == 0 || ps[s[0]].rank != r {
        0
    } else {
        1 + run_len(ps, s.drop_first(), r)
    }
}

pub proof fn lemma_run_len_le(ps: Seq<Placement>, s: Seq<int>, r: i32)
    ensures
        run_len(ps, s, r) <= s.len(),
    decreases s.len(),
{
    if s.len() > 0 && ps[s[0]].rank == r {
        lemma_run_len_le(ps, s.drop_first(), r);
    }
}

/// Total height of a run of boxes.
pub open spec fn run_height(ds: Seq<(usize, usize)>, s: Seq<int>) -> int
    decreases s.len(),
{
    if s.len() == 0 {
        0
    } else {
        run_height(ds, s.drop_last()) + ds[s.last()].1
    }
}

/// The lowest bottom edge of a run of boxes (of the first box when alone).
pub open spec fn run_bottom(ps: Seq<Placement>, ds: Seq<(usize, usize)>, s: Seq<int>) -> int
    decreases s.len(),
{
    if s.len() <= 1 {
        ps[s[0]].y + ds[s[0]].1
    } else {
        let b = run_bottom(ps, ds, s.drop_last());
        let e = ps[s.last()].y + ds[s.last()].1;
        if e > b {
            e
        } else {
            b
        }
    }
}

/// Integer halving that rounds toward zero, as `i64` division does.
pub open spec fn half(v: int) -> int {
    if v >= 0 {
        v / 2
    } else {
        -((-v) / 2)
    }
}

/// The height of the boxes of a run with a gap of 2 below each.
pub open spec fn stacked(ds: Seq<(usize, usize)>, s: Seq<int>) -> int
    decreases s.len(),
{
    if s.len() == 0 {
        0
    } else {
        stacked(ds, s.drop_last()) + ds[s.last()].1 + 2
    }
}

/// The rows of a layer's boxes: a lone box stays put; several are stacked
/// two rows apart and centred on the span they took before.
pub open spec fn pack_run(ps: Seq<Placement>, ds: Seq<(usize, usize)>, s: Seq<int>) -> Seq<int> {
    if s.len() <= 1 {
        s.map_values(|i: int| ps[i].y as int)
    } else {
        let cursor = half(ps[s[0]].y + run_bottom(ps, ds, s) - (run_height(ds, s) + 2 * (s.len() - 1)));
        Seq::new(s.len(), |k: int| cursor + stacked(ds, s.take(k)))
    }
}

/// The rows of the boxes of a drawing order, layer by layer.
pub open spec fn packed_ys(ps: Seq<Placement>, ds: Seq<(usize, usize)>, s: Seq<int>) -> Seq<int>
    decreases s.len(),
{
    if s.len() == 0 {
        seq![]
    } else {
        let k = run_len(ps, s, ps[s[0]].rank);
        if k == 0 {
            seq![]
        } else {
            proof {
                lemma_run_len_le(ps, s, ps[s[0]].rank);
            }
            pack_run(ps, ds, s.take(k as int)) + packed_ys(ps, ds, s.skip(k as int))
        }
    }
}

/// The names of a list that are not in `conn`, in order.
pub open spec fn unconnected(names: Seq<Seq<char>>, conn: Seq<Seq<char>>) -> Seq<Seq<char>>
    decreases names.len(),
{
    if names.len() == 0 {
        seq![]
    } else {
        unconnected(names.drop_last(), conn) + if conn.contains(names.last()) {
            seq![]
        } else {
            seq![names.last()]
        }
    }
}

/// Corners of boxes of the given sizes set out left to right from `(x, y)`,
/// four columns apart, a new row (two rows below the tallest box of the
/// last) whenever a box would reach past column 100.
pub open spec fn place_rows(sizes: Seq<(nat, nat)>, x: int, y: int, rh: int) -> Seq<(int, int)>
    decreases sizes.len(),
{
    if sizes.len() == 0 {
        seq![]
    } else {
        let (w, h) = sizes[0];
        let wrap = x > 0 && x + w > 100;
        let x1 = if wrap {
            0
        } else {
            x
        };
        let y1 = if wrap {
            y + rh + 2
        } else {
            y
        };
        let rh1 = if wrap {
            0
        } else {
            rh
        };
        seq![(x1, y1)] + place_rows(sizes.drop_first(), x1 + w + 4, y1, if h > rh1 {
            h as int
        } else {
            rh1
        })
    }
}

/// The box drawn for `name` at `(x, y)` with size `(w, h)`.
pub open spec fn node_is(
    ts: Seq<Table>,
    n: NodeBox,
    name: Seq<char>,
    x: int,
    y: int,
    w: int,
    h: int,
) -> bool {
    &&& n.name@ == name
    &&& n.x == x
    &&& n.y == y
    &&& n.w == w
    &&& n.h == h
    &&& views(n.lines@) == spec_box_lines(name, lookup(ts, name))
}

/// The lowest bottom edge of a list of boxes, when there are any.
pub open spec fn max_bottom(ys: Seq<int>, hs: Seq<int>) -> int
    decreases ys.len(),
{
    if ys.len() <= 1 {
        ys[0] + hs[0]
    } else {
        let b = max_bottom(ys.drop_last(), hs.drop_last());
        let e = ys.last() + hs.last();
        if e > b {
            e
        } else {
            b
        }
    }
}

/// The height of the tallest of the named boxes.
pub open spec fn tallest(ts: Seq<Table>, names: Seq<Seq<char>>) -> nat
    decreases names.len(),
{
    if names.len() == 0 {
        0
    } else {
        let m = tallest(ts, names.drop_last());
        let h = box_size(ts, names.last()).1;
        if h > m {
            h
        } else {
            m
        }
    }
}

/// The width of the widest of the named boxes.
pub open spec fn widest(ts: Seq<Table>, names: Seq<Seq<char>>) -> nat
    decreases names.len(),
{
    if names.len() == 0 {
        0
    } else {
        let m = widest(ts, names.drop_last());
        let w = box_size(ts, names.last()).0;
        if w > m {
            w
        } else {
            m
        }
    }
}

pub proof fn lemma_tallest(ts: Seq<Table>, names: Seq<Seq<char>>, k: int)
    requires
        0 <= k < names.len(),
    ensures
        box_size(ts, names[k]).1 <= tallest(ts, names),
        box_size(ts, names[k]).0 <= widest(ts, names),
    decreases names.len(),
{
    if k < names.len() - 1 {
        lemma_tallest(ts, names.drop_last(), k);
    }
}

/// The extent of the diagram if all its boxes, joined ones counted twice,
/// were stacked two rows apart, beside the widest box with room for the
/// gaps of a row.
pub open spec fn stack_extent(ts: Seq<Table>, p: Plan) -> int {
    (p.names.len() + p.connected.len()) * (tallest(ts, views(p.names@)) + 2) + widest(ts, views(p.names@)) + 200
}

/// What `compute` is owed: a plan of the schema whose box names fit in a
/// `usize` with their margins, one placement per joined box, and room in an
/// `i64` for every coordinate it forms: the placements and the stacked
/// boxes each within an eighth of the range (2^60), so that every sum of a
/// corner and the heights before it stays in range.
pub open spec fn compute_ready(ts: Seq<Table>, p: Plan, ps: Seq<Placement>) -> bool {
    &&& lines_fit(ts)
    &&& plan_ok(ts, p)
    &&& forall|k: int| 0 <= k < p.names.len() ==> fits4((#[trigger] p.names@[k])@)
    &&& ps.len() == p.connected.len()
    &&& forall|k: int|
        0 <= k < ps.len() ==> -0x1000_0000_0000_0000 <= (#[trigger] ps[k]).x <= 0x1000_0000_0000_0000
            && -0x1000_0000_0000_0000 <= ps[k].y <= 0x1000_0000_0000_0000
    &&& stack_extent(ts, p) <= 0x1000_0000_0000_0000
}

/// The sizes of the joined boxes are within the tallest and widest.
pub proof fn lemma_ready_sizes(ts: Seq<Table>, p: Plan, ps: Seq<Placement>)
    requires
        compute_ready(ts, p, ps),
    ensures
        forall|k: int|
            0 <= k < p.sizes.len() ==> (#[trigger] p.sizes@[k]).1 <= tallest(ts, views(p.names@)) && p.sizes@[k].0
                <= widest(ts, views(p.names@)),
        tallest(ts, views(p.names@)) + 2 <= 0x1000_0000_0000_0000,
        widest(ts, views(p.names@)) <= 0x1000_0000_0000_0000,
        p.connected.len() * (tallest(ts, views(p.names@)) + 2) <= 0x1000_0000_0000_0000,
        p.names.len() * (tallest(ts, views(p.names@)) + 2) <= 0x1000_0000_0000_0000,
{
    let hb = tallest(ts, views(p.names@));
    let nn = p.names.len() as int;
    let nc = p.connected.len() as int;
    assert(nc * (hb + 2) <= (nn + nc) * (hb + 2)) by (nonlinear_arith)
        requires
            nn >= 0,
            nc >= 0,
            hb >= 0,
    ;
    assert(nn * (hb + 2) <= (nn + nc) * (hb + 2)) by (nonlinear_arith)
        requires
            nn >= 0,
            nc >= 0,
            hb >= 0,
    ;
    if nn + nc > 0 {
        assert(hb + 2 <= (nn + nc) * (hb + 2)) by (nonlinear_arith)
            requires
                nn + nc >= 1,
                hb >= 0,
        ;
    } else {
        assert(views(p.names@).len() == 0);
        assert(hb == 0);
    }
    assert forall|k: int| 0 <= k < p.sizes.len() implies (#[trigger] p.sizes@[k]).1 <= hb && p.sizes@[k].0
        <= widest(ts, views(p.names@)) by {
        let n = p.connected@[k]@;
        assert(views(p.connected@)[k] == n);
        assert(views(p.connected@).contains(n));
        assert(views(p.names@).contains(n));
        let r = choose|r: int| 0 <= r < views(p.names@).len() && views(p.names@)[r] == n;
        lemma_tallest(ts, views(p.names@), r);
    }
}

/// Whether every table's box fits in a `usize` (`lines_fit`).
pub fn lines_fit_check(schema: &Schema) -> (r: bool)
    ensures
        r == lines_fit(schema@),
{
    let tables = schema.tables();
    let mut i: usize = 0;
    while i < tables.len()
        invariant
            tables@ == schema@,
            i <= tables.len(),
            forall|k: int| 0 <= k < i ==> table_lines_fit(#[trigger] tables@[k]),
        decreases tables.len() - i,
    {
        let t = &tables[i];
        if char_count(t.name.as_str()) > usize::MAX - 4 || t.columns.len() > usize::MAX - 4 {
            proof {
                assert(!table_lines_fit(tables@[i as int]));
            }
            return false;
        }
        let mut j: usize = 0;
        while j < t.columns.len()
            invariant
                tables@ == schema@,
                i < tables.len(),
                *t == tables@[i as int],
                j <= t.columns.len(),
                forall|k: int| 0 <= k < j ==> fits4(column_text(#[trigger] t.columns@[k])),
            decreases t.columns.len() - j,
        {
            let c = &t.columns[j];
            let ln = char_count(c.name.as_str()) as u128;
            let lp: u128 = if c.primary_key {
                3
            } else {
                0
            };
            let lt = char_count(c.data_type.as_str()) as u128;
            let lty: u128 = if lt > 0 {
                lt + 1
            } else {
                0
            };
            proof {
                reveal_strlit(" PK");
                assert(column_text(*c).len() == ln + lp + lty);
            }
            if ln + lp + lty + 4 > usize::MAX as u128 {
                proof {
                    assert(!table_lines_fit(tables@[i as int]));
                }
                return false;
            }
            j = j + 1;
        }
        let mut j: usize = 0;
        while j < t.foreign_keys.len()
            invariant
                tables@ == schema@,
                i < tables.len(),
                *t == tables@[i as int],
                j <= t.foreign_keys.len(),
                forall|k: int| 0 <= k < j ==> fits4((#[trigger] t.foreign_keys@[k]).to_table@),
            decreases t.foreign_keys.len() - j,
        {
            if char_count(t.foreign_keys[j].to_table.as_str()) > usize::MAX - 4 {
                proof {
                    assert(!table_lines_fit(tables@[i as int]));
                }
                return false;
            }
            j = j + 1;
        }
        proof {
            assert(table_lines_fit(tables@[i as int]));
        }
        i = i + 1;
    }
    true
}

/// Whether `compute` may run on a schema, its plan and the placements:
/// exactly `compute_ready` for a plan that `plan` made.
pub fn can_compute(schema: &Schema, plan: &Plan, placements: &Vec<Placement>) -> (r: bool)
    ensures
        plan_ok(schema@, *plan) ==> (r == compute_ready(schema@, *plan, placements@)),
{
    let ghost ts = schema@;
    if !lines_fit_check(schema) {
        return false;
    }
    if placements.len() != plan.connected.len() {
        return false;
    }
    let mut k: usize = 0;
    while k < plan.names.len()
        invariant
            k <= plan.names.len(),
            forall|j: int| 0 <= j < k ==> fits4((#[trigger] plan.names@[j])@),
        decreases plan.names.len() - k,
    {
        if char_count(plan.names[k].as_str()) > usize::MAX - 4 {
            return false;
        }
        k = k + 1;
    }
    let mut th: usize = 0;
    let mut tw: usize = 0;
    let mut k: usize = 0;
    while k < plan.names.len()
        invariant
            lines_fit(ts),
            schema@ == ts,
            k <= plan.names.len(),
            forall|j: int| 0 <= j < plan.names.len() ==> fits4((#[trigger] plan.names@[j])@),
            th == tallest(ts, views(plan.names@).take(k as int)),
            tw == widest(ts, views(plan.names@).take(k as int)),
        decreases plan.names.len() - k,
    {
        let (w, h) = size_of(schema, &plan.names[k]);
        proof {
            assert(views(plan.names@).take(k + 1).drop_last() =~= views(plan.names@).take(k as int));
            assert(views(plan.names@).take(k + 1).last() == plan.names@[k as int]@);
        }
        if h > th {
            th = h;
        }
        if w > tw {
            tw = w;
        }
        k = k + 1;
    }
    proof {
        assert(views(plan.names@).take(k as int) =~= views(plan.names@));
    }
    let cnt = plan.names.len() as u128 + plan.connected.len() as u128;
    if th as u128 + 2 > 0x1000_0000_0000_0000 {
        proof {
            if views(plan.names@).len() == 0 {
                assert(tallest(ts, views(plan.names@)) == 0);
            }
            assert(cnt >= 1);
            assert(cnt * (th + 2) >= th + 2) by (nonlinear_arith)
                requires
                    cnt >= 1,
                    th >= 0,
            ;
        }
        return false;
    }
    proof {
        assert(cnt * (th + 2) <= 0x2_0000_0000_0000_0000 * 0x1000_0000_0000_0000) by (nonlinear_arith)
            requires
                0 <= cnt <= 0x2_0000_0000_0000_0000,
                0 <= th + 2 <= 0x1000_0000_0000_0000,
        ;
    }
    if cnt * (th as u128 + 2) + tw as u128 + 200 > 0x1000_0000_0000_0000 {
        return false;
    }
    let mut k: usize = 0;
    while k < placements.len()
        invariant
            k <= placements.len(),
            forall|j: int|
                0 <= j < k ==> -0x1000_0000_0000_0000 <= (#[trigger] placements@[j]).x <= 0x1000_0000_0000_0000
                    && -0x1000_0000_0000_0000 <= placements@[j].y <= 0x1000_0000_0000_0000,
        decreases placements.len() - k,
    {
        let p = placements[k];
        if p.x < -0x1000_0000_0000_0000 || p.x > 0x1000_0000_0000_0000 || p.y < -0x1000_0000_0000_0000 || p.y
            > 0x1000_0000_0000_0000 {
            return false;
        }
        k = k + 1;
    }
    true
}

/// The layout that `compute` gives.
pub open spec fn layout_ok(ts: Seq<Table>, p: Plan, ps: Seq<Placement>, l: Layout) -> bool {
    let n = p.connected.len();
    let order = sort_order(ps, n as nat);
    let ys = packed_ys(ps, p.sizes@, order);
    let unc = unconnected(views(p.names@), views(p.connected@));
    let hs = Seq::new(n as nat, |k: int| p.sizes@[order[k]].1 as int);
    let y0 = if n == 0 {
        0
    } else {
        max_bottom(ys, hs) + 3
    };
    let spots = place_rows(unc.map_values(|nm: Seq<char>| box_size(ts, nm)), 0, y0, 0);
    &&& l.nodes.len() == n + unc.len()
    &&& forall|k: int|
        #![trigger l.nodes@[k]]
        0 <= k < n ==> node_is(
            ts,
            l.nodes@[k],
            p.connected@[order[k]]@,
            ps[order[k]].x as int,
            ys[k],
            p.sizes@[order[k]].0 as int,
            p.sizes@[order[k]].1 as int,
        )
    &&& forall|q: int|
        #![trigger l.nodes@[n + q]]
        0 <= q < unc.len() ==> node_is(
            ts,
            l.nodes@[n + q],
            unc[q],
            spots[q].0,
            spots[q].1,
            box_size(ts, unc[q]).0 as int,
            box_size(ts, unc[q]).1 as int,
        )
    &&& l.edges@.map_values(|e: EdgeRoute| edge_view(e)) == p.edges@.map_values(|e: EdgeRoute| edge_view(e))
}

pub proof fn lemma_insert_sorted(ps: Seq<Placement>, s: Seq<int>, k: int, j: int)
    requires
        0 <= j <= s.len(),
        forall|m: int| j <= m < s.len() ==> !key_le(ps, #[trigger] s[m], k),
        j == 0 || key_le(ps, s[j - 1], k),
    ensures
        insert_sorted(ps, s, k) == s.insert(j, k),
    decreases s.len(),
{
    if s.len() == 0 {
        assert(s.insert(j, k) =~= seq![k]);
    } else if key_le(ps, s.last(), k) {
        assert(j == s.len());
        assert(s.insert(j, k) =~= s.push(k));
    } else {
        lemma_insert_sorted(ps, s.drop_last(), k, j);
        assert(s.insert(j, k) =~= s.drop_last().insert(j, k).push(s.last()));
    }
}

pub open spec fn as_ints(v: Seq<usize>) -> Seq<int> {
    v.map_values(|i: usize| i as int)
}

/// The joined boxes in drawing order.
fn sort_boxes(ps: &Vec<Placement>) -> (order: Vec<usize>)
    ensures
        as_ints(order@) == sort_order(ps@, ps.len() as nat),
        order.len() == ps.len(),
        forall|k: int| 0 <= k < order.len() ==> (#[trigger] order@[k]) < ps.len(),
{
    let mut order: Vec<usize> = Vec::new();
    let mut k: usize = 0;
    while k < ps.len()
        invariant
            k <= ps.len(),
            order.len() == k,
            as_ints(order@) == sort_order(ps@, k as nat),
            forall|q: int| 0 <= q < order.len() ==> (#[trigger] order@[q]) < k,
        decreases ps.len() - k,
    {
        let mut j: usize = order.len();
        while j > 0 && !(ps[order[j - 1]].rank < ps[k].rank || (ps[order[j - 1]].rank == ps[k].rank
            && ps[order[j - 1]].y <= ps[k].y))
            invariant
                k < ps.len(),
                order.len() == k,
                j <= order.len(),
                forall|q: int| 0 <= q < order.len() ==> (#[trigger] order@[q]) < k,
                forall|m: int| j <= m < order.len() ==> !key_le(ps@, #[trigger] as_ints(order@)[m], k as int),
            decreases j,
        {
            j = j - 1;
        }
        proof {
            lemma_insert_sorted(ps@, as_ints(order@), k as int, j as int);
        }
        let ghost before = as_ints(order@);
        order.insert(j, k);
        assert(as_ints(order@) =~= before.insert(j as int, k as int));
        k = k + 1;
    }
    order
}

pub proof fn lemma_run_len(ps: Seq<Placement>, s: Seq<int>, r: i32, m: int)
    requires
        0 <= m <= s.len(),
        forall|j: int| 0 <= j < m ==> ps[#[trigger] s[j]].rank == r,
        m == s.len() || ps[s[m]].rank != r,
    ensures
        run_len(ps, s, r) == m,
    decreases m,
{
    if m > 0 {
        assert forall|j: int| 0 <= j < m - 1 implies ps[#[trigger] s.drop_first()[j]].rank == r by {
            assert(s.drop_first()[j] == s[j + 1]);
        }
        if m < s.len() {
            assert(s.drop_first()[m - 1] == s[m]);
        }
        lemma_run_len(ps, s.drop_first(), r, m - 1);
    } else if s.len() > 0 {
        assert(ps[s[0]].rank != r);
    }
}

/// What the packing of one run needs: indices within range, heights at
/// most `hb`, and the corners and the run stacked each within 2^60.
pub open spec fn run_ready(ps: Seq<Placement>, ds: Seq<(usize, usize)>, s: Seq<int>, hb: int) -> bool {
    &&& ds.len() == ps.len()
    &&& 1 <= s.len()
    &&& 0 <= hb
    &&& s.len() * (hb + 2) <= 0x1000_0000_0000_0000
    &&& forall|j: int| 0 <= j < s.len() ==> 0 <= #[trigger] s[j] < ps.len()
    &&& forall|k: int| 0 <= k < ps.len() ==> -0x1000_0000_0000_0000 <= (#[trigger] ps[k]).y <= 0x1000_0000_0000_0000
    &&& forall|k: int| 0 <= k < ds.len() ==> (#[trigger] ds[k]).1 <= hb
}

/// The rows of the boxes of one layer (`order[p..e]`).
fn pack(
    ps: &Vec<Placement>,
    sizes: &Vec<(usize, usize)>,
    order: &Vec<usize>,
    p: usize,
    e: usize,
    Ghost(hb): Ghost<int>,
) -> (r: Vec<i64>)
    requires
        p < e <= order.len(),
        run_ready(ps@, sizes@, as_ints(order@).subrange(p as int, e as int), hb),
    ensures
        r@.map_values(|v: i64| v as int) == pack_run(ps@, sizes@, as_ints(order@).subrange(p as int, e as int)),
        forall|k: int| 0 <= k < r.len() ==> -0x4000_0000_0000_0000 <= #[trigger] r@[k] <= 0x4000_0000_0000_0000,
{
    let ghost s = as_ints(order@).subrange(p as int, e as int);
    let len = e - p;
    assert(s[0] == order@[p as int]);
    assert(0 <= s[0] < ps.len());
    if len == 1 {
        let mut r: Vec<i64> = Vec::new();
        r.push(ps[order[p]].y);
        assert(s[0] == order@[p as int]);
        assert(r@.map_values(|v: i64| v as int) =~= s.map_values(|i: int| ps@[i].y as int));
        return r;
    }
    let top = ps[order[p]].y;
    assert(s[0] == order@[p as int]);
    proof {
        assert(hb + 2 <= len * (hb + 2)) by (nonlinear_arith)
            requires
                len >= 1,
                hb >= 0,
        ;
        assert(sizes@[order@[p as int] as int].1 <= hb);
    }
    let mut bottom: i64 = ps[order[p]].y + sizes[order[p]].1 as i64;
    let mut total: i64 = sizes[order[p]].1 as i64;
    let mut i: usize = 1;
    proof {
        assert(hb + 2 <= len * (hb + 2)) by (nonlinear_arith)
            requires
                len >= 1,
                hb >= 0,
        ;
    }
    assert(s.take(1).drop_last() =~= s.take(0));
    assert(s.take(1)[0] == s[0]);
    assert(run_height(sizes@, s.take(0)) == 0);
    while i < len
        invariant
            len == e - p,
            p < e <= order.len(),
            s == as_ints(order@).subrange(p as int, e as int),
            run_ready(ps@, sizes@, s, hb),
            hb + 2 <= 0x1000_0000_0000_0000,
            1 <= i <= len,
            bottom == run_bottom(ps@, sizes@, s.take(i as int)),
            total == run_height(sizes@, s.take(i as int)),
            0 <= total <= i * hb,
            -0x1000_0000_0000_0000 <= bottom <= 0x1000_0000_0000_0000 + hb,
        decreases len - i,
    {
        proof {
            assert(i * hb + hb == (i + 1) * hb) by (nonlinear_arith);
            assert((i + 1) * hb <= len * (hb + 2)) by (nonlinear_arith)
                requires
                    i + 1 <= len,
                    hb >= 0,
            ;
        }
        let k = order[p + i];
        assert(s[i as int] == k);
        let b = ps[k].y + sizes[k].1 as i64;
        if b > bottom {
            bottom = b;
        }
        total = total + sizes[k].1 as i64;
        assert(s.take(i + 1).drop_last() =~= s.take(i as int));
        i = i + 1;
    }
    assert(s.take(len as int) =~= s);
    proof {
        assert(len * hb + 2 * (len - 1) <= len * (hb + 2)) by (nonlinear_arith)
            requires
                len >= 1,
        ;
        assert(total <= len * hb);
    }
    let v: i64 = top + bottom - (total + 2 * (len as i64 - 1));
    let cursor: i64 = if v >= 0 {
        v / 2
    } else {
        -((-v) / 2)
    };
    let mut r: Vec<i64> = Vec::new();
    let mut cur = cursor;
    let mut i: usize = 0;
    assert(s.take(0) =~= Seq::<int>::empty());
    while i < len
        invariant
            len == e - p,
            p < e <= order.len(),
            s == as_ints(order@).subrange(p as int, e as int),
            run_ready(ps@, sizes@, s, hb),
            i <= len,
            r.len() == i,
            cur == cursor + stacked(sizes@, s.take(i as int)),
            0 <= stacked(sizes@, s.take(i as int)) <= i * (hb + 2),
            -0x1800_0000_0000_0000 <= cursor <= 0x1800_0000_0000_0000,
            forall|k: int| 0 <= k < i ==> #[trigger] r@[k] == cursor + stacked(sizes@, s.take(k)),
            forall|k: int| 0 <= k < i ==> -0x4000_0000_0000_0000 <= #[trigger] r@[k] <= 0x4000_0000_0000_0000,
        decreases len - i,
    {
        proof {
            assert(i * (hb + 2) + hb + 2 == (i + 1) * (hb + 2)) by (nonlinear_arith);
            assert(i * (hb + 2) <= len * (hb + 2)) by (nonlinear_arith)
                requires
                    i <= len,
                    hb >= 0,
            ;
            assert((i + 1) * (hb + 2) <= len * (hb + 2)) by (nonlinear_arith)
                requires
                    i + 1 <= len,
                    hb >= 0,
            ;
        }
        r.push(cur);
        let k = order[p + i];
        assert(s[i as int] == k);
        assert(s.take(i + 1).drop_last() =~= s.take(i as int));
        cur = cur + sizes[k].1 as i64 + 2;
        i = i + 1;
    }
    assert(r@.map_values(|v: i64| v as int) =~= pack_run(ps@, sizes@, s));
    r
}

/// The names of a sorted list that are not in another.
fn unconnected_names(names: &Vec<String>, connected: &Vec<String>) -> (r: Vec<String>)
    ensures
        views(r@) == unconnected(views(names@), views(connected@)),
        r.len() <= names.len(),
        forall|q: int| 0 <= q < r.len() ==> views(names@).contains(#[trigger] r@[q]@),
{
    let mut r: Vec<String> = Vec::new();
    let mut i: usize = 0;
    while i < names.len()
        invariant
            i <= names.len(),
            views(r@) == unconnected(views(names@).take(i as int), views(connected@)),
            r.len() <= i,
            forall|q: int| 0 <= q < r.len() ==> views(names@).contains(#[trigger] r@[q]@),
        decreases names.len() - i,
    {
        let ghost before = views(r@);
        assert(views(names@).take(i + 1).drop_last() =~= views(names@).take(i as int));
        assert(views(names@).take(i + 1).last() == names@[i as int]@);
        if !contains_name(connected, &names[i]) {
            r.push(names[i].clone());
            assert(views(r@) =~= before.push(names@[i as int]@));
            assert(views(names@)[i as int] == names@[i as int]@);
        } else {
            assert(views(r@) =~= before);
        }
        i = i + 1;
    }
    assert(views(names@).take(i as int) =~= views(names@));
    r
}

/// The boxes of the diagram: the joined boxes where the layered layout put
/// them, each layer's boxes stacked two rows apart and centred where the
/// layer stood, in layer order and from the top; then the other boxes in
/// rows below them, in name order.
pub fn compute(schema: &Schema, plan: &Plan, placements: &Vec<Placement>) -> (l: Layout)
    requires
        compute_ready(schema@, *plan, placements@),
    ensures
        layout_ok(schema@, *plan, placements@, l),
        has_columns(schema@) ==> forall|k: int|
            0 <= k < l.edges.len() ==> end_fits(l.nodes@, (#[trigger] l.edges@[k]).from@, l.edges@[k].from_line)
                && end_fits(l.nodes@, l.edges@[k].to@, l.edges@[k].to_line),
{
    let ghost ts = schema@;
    let ghost hb = tallest(ts, views(plan.names@)) as int;
    let ghost wb = widest(ts, views(plan.names@)) as int;
    proof {
        lemma_ready_sizes(ts, *plan, placements@);
    }
    let ps = placements;
    let n = ps.len();
    let order = sort_boxes(ps);
    let ghost so = as_ints(order@);
    let ghost ds = plan.sizes@;
    let ghost all_ys = packed_ys(ps@, ds, so);
    let mut ys: Vec<i64> = Vec::new();
    let mut p: usize = 0;
    assert(so.skip(0) =~= so);
    while p < n
        invariant
            n == ps.len(),
            n == order.len(),
            n == plan.sizes.len(),
            n * (hb + 2) <= 0x1000_0000_0000_0000,
            0 <= hb,
            so == as_ints(order@),
            so == sort_order(ps@, n as nat),
            ds == plan.sizes@,
            all_ys == packed_ys(ps@, ds, so),
            forall|k: int| 0 <= k < order.len() ==> (#[trigger] order@[k]) < n,
            forall|k: int| 0 <= k < n ==> -0x1000_0000_0000_0000 <= (#[trigger] ps@[k]).y <= 0x1000_0000_0000_0000,
            forall|k: int| 0 <= k < n ==> (#[trigger] ds[k]).1 <= hb,
            p <= n,
            ys.len() == p,
            ys@.map_values(|v: i64| v as int) + packed_ys(ps@, ds, so.skip(p as int)) == all_ys,
            forall|k: int| 0 <= k < p ==> -0x4000_0000_0000_0000 <= #[trigger] ys@[k] <= 0x4000_0000_0000_0000,
        decreases n - p,
    {
        let r = ps[order[p]].rank;
        let mut e = p + 1;
        while e < n && ps[order[e]].rank == r
            invariant
                n == ps.len(),
                n == order.len(),
                p < e <= n,
                r == ps@[order@[p as int] as int].rank,
                forall|k: int| 0 <= k < order.len() ==> (#[trigger] order@[k]) < n,
                forall|j: int| p <= j < e ==> ps@[#[trigger] order@[j] as int].rank == r,
            decreases n - e,
        {
            e = e + 1;
        }
        let ghost rest = so.skip(p as int);
        proof {
            assert forall|j: int| 0 <= j < e - p implies ps@[#[trigger] rest[j]].rank == r by {
                assert(rest[j] == order@[p + j]);
            }
            if e < n {
                assert(rest[e - p] == order@[e as int]);
            }
            lemma_run_len(ps@, rest, r, e - p);
            assert(rest[0] == order@[p as int]);
            assert(rest.take(e - p) =~= so.subrange(p as int, e as int));
            assert(rest.skip(e - p) =~= so.skip(e as int));
            let sub = so.subrange(p as int, e as int);
            assert forall|j: int| 0 <= j < sub.len() implies 0 <= #[trigger] sub[j] < ps@.len() by {
                assert(sub[j] == order@[p + j]);
            }
            assert(sub.len() * (hb + 2) <= n * (hb + 2)) by (nonlinear_arith)
                requires
                    sub.len() <= n,
                    hb >= 0,
            ;
        }
        let run = pack(ps, &plan.sizes, &order, p, e, Ghost(hb));
        let ghost before = ys@.map_values(|v: i64| v as int);
        let mut k: usize = 0;
        while k < run.len()
            invariant
                ys.len() == p + k,
                k <= run.len(),
                ys@.map_values(|v: i64| v as int) == before + run@.map_values(|v: i64| v as int).take(k as int),
                forall|q: int| 0 <= q < run.len() ==> -0x4000_0000_0000_0000 <= #[trigger] run@[q] <= 0x4000_0000_0000_0000,
                forall|q: int| 0 <= q < p + k ==> -0x4000_0000_0000_0000 <= #[trigger] ys@[q] <= 0x4000_0000_0000_0000,
                before.len() == p,
            decreases run.len() - k,
        {
            let ghost yb = ys@;
            ys.push(run[k]);
            assert(ys@.map_values(|v: i64| v as int) =~= yb.map_values(|v: i64| v as int).push(run@[k as int] as int));
            assert(run@.map_values(|v: i64| v as int).take(k + 1) =~= run@.map_values(|v: i64| v as int).take(k as int).push(run@[k as int] as int));
            assert(ys@.map_values(|v: i64| v as int) =~= before + run@.map_values(|v: i64| v as int).take(k + 1));
            k = k + 1;
        }
        assert(run@.map_values(|v: i64| v as int).take(k as int) =~= run@.map_values(|v: i64| v as int));
        assert(run.len() == e - p);
        p = e;
    }
    assert(so.skip(n as int) =~= Seq::<int>::empty());
    assert(ys@.map_values(|v: i64| v as int) =~= all_ys);
    let mut nodes: Vec<NodeBox> = Vec::new();
    let mut k: usize = 0;
    while k < n
        invariant
            n == ps.len(),
            n == order.len(),
            n == plan.connected.len(),
            n == plan.sizes.len(),
            n == ys.len(),
            schema@ == ts,
            compute_ready(ts, *plan, ps@),
            so == as_ints(order@),
            ds == plan.sizes@,
            ys@.map_values(|v: i64| v as int) == all_ys,
            forall|q: int| 0 <= q < order.len() ==> (#[trigger] order@[q]) < n,
            k <= n,
            nodes.len() == k,
            forall|q: int|
                #![trigger nodes@[q]]
                0 <= q < k ==> node_is(
                    ts,
                    nodes@[q],
                    plan.connected@[so[q]]@,
                    ps@[so[q]].x as int,
                    all_ys[q],
                    ds[so[q]].0 as int,
                    ds[so[q]].1 as int,
                ),
        decreases n - k,
    {
        let j = order[k];
        let name = plan.connected[j].clone();
        let lines = box_lines(name.as_str(), schema.get(name.as_str()));
        let nb = NodeBox {
            name,
            x: ps[j].x,
            y: ys[k],
            w: plan.sizes[j].0,
            h: plan.sizes[j].1,
            lines,
        };
        assert(all_ys[k as int] == ys@[k as int]);
        nodes.push(nb);
        k = k + 1;
    }
    let ghost hs = Seq::new(n as nat, |k: int| plan.sizes@[so[k]].1 as int);
    let mut y0: i64 = 0;
    if n > 0 {
        let mut b: i64 = ys[0] + plan.sizes[order[0]].1 as i64;
        let mut k: usize = 1;
        assert(all_ys.take(1).drop_last() =~= all_ys.take(0));
        while k < n
            invariant
                n == ps.len(),
                n == order.len(),
                n == plan.sizes.len(),
                n == ys.len(),
                so == as_ints(order@),
                ys@.map_values(|v: i64| v as int) == all_ys,
                hs == Seq::new(n as nat, |k: int| plan.sizes@[so[k]].1 as int),
                forall|q: int| 0 <= q < order.len() ==> (#[trigger] order@[q]) < n,
                forall|q: int| 0 <= q < n ==> -0x4000_0000_0000_0000 <= #[trigger] ys@[q] <= 0x4000_0000_0000_0000,
                forall|q: int| 0 <= q < n ==> (#[trigger] plan.sizes@[q]).1 <= hb,
                hb + 2 <= 0x1000_0000_0000_0000,
                1 <= k <= n,
                b == max_bottom(all_ys.take(k as int), hs.take(k as int)),
                -0x4000_0000_0000_0000 <= b <= 0x4000_0000_0000_0000 + hb,
            decreases n - k,
        {
            let c = ys[k] + plan.sizes[order[k]].1 as i64;
            assert(all_ys.take(k + 1).drop_last() =~= all_ys.take(k as int));
            assert(hs.take(k + 1).drop_last() =~= hs.take(k as int));
            assert(all_ys.take(k + 1).last() == ys@[k as int]);
            if c > b {
                b = c;
            }
            k = k + 1;
        }
        assert(all_ys.take(n as int) =~= all_ys);
        assert(hs.take(n as int) =~= hs);
        y0 = b + 3;
    }
    let unc = unconnected_names(&plan.names, &plan.connected);
    let ghost unc_v = views(unc@);
    let ghost sizes_v = unc_v.map_values(|nm: Seq<char>| box_size(ts, nm));
    let ghost spots = place_rows(sizes_v, 0, y0 as int, 0);
    let mut x: i64 = 0;
    let mut y: i64 = y0;
    let mut row_height: i64 = 0;
    let mut q: usize = 0;
    assert(sizes_v.skip(0) =~= sizes_v);
    assert(spots =~= Seq::<(int, int)>::empty() + place_rows(sizes_v.skip(0), 0, y0 as int, 0));
    while q < unc.len()
        invariant
            schema@ == ts,
            compute_ready(ts, *plan, ps@),
            n == ps.len(),
            unc_v == views(unc@),
            unc.len() <= plan.names.len(),
            forall|r: int| 0 <= r < unc.len() ==> views(plan.names@).contains(#[trigger] unc@[r]@),
            sizes_v == unc_v.map_values(|nm: Seq<char>| box_size(ts, nm)),
            q <= unc.len(),
            nodes.len() == n + q,
            hb == tallest(ts, views(plan.names@)),
            wb == widest(ts, views(plan.names@)),
            0 <= hb,
            hb + 2 <= 0x1000_0000_0000_0000,
            wb <= 0x1000_0000_0000_0000,
            plan.names.len() * (hb + 2) <= 0x1000_0000_0000_0000,
            0 <= x <= wb + 104,
            0 <= row_height <= hb,
            y0 <= y <= y0 + q * (hb + 2),
            -0x4000_0000_0000_0000 <= y0 <= 0x4000_0000_0000_0000 + hb + 3,
            spots == nodes@.subrange(n as int, n + q).map_values(|nb: NodeBox| (nb.x as int, nb.y as int))
                + place_rows(sizes_v.skip(q as int), x as int, y as int, row_height as int),
            forall|k: int|
                #![trigger nodes@[k]]
                0 <= k < n ==> node_is(
                    ts,
                    nodes@[k],
                    plan.connected@[so[k]]@,
                    ps@[so[k]].x as int,
                    all_ys[k],
                    ds[so[k]].0 as int,
                    ds[so[k]].1 as int,
                ),
            forall|r: int|
                #![trigger nodes@[n + r]]
                0 <= r < q ==> node_is(
                    ts,
                    nodes@[n + r],
                    unc_v[r],
                    nodes@[n + r].x as int,
                    nodes@[n + r].y as int,
                    box_size(ts, unc_v[r]).0 as int,
                    box_size(ts, unc_v[r]).1 as int,
                ),
        decreases unc.len() - q,
    {
        let name = unc[q].clone();
        proof {
            assert(views(plan.names@).contains(unc@[q as int]@));
            let r = choose|r: int| 0 <= r < views(plan.names@).len() && views(plan.names@)[r] == unc@[q as int]@;
            assert(fits4(plan.names@[r]@));
            lemma_tallest(ts, views(plan.names@), r);
            assert(q * (hb + 2) + hb + 2 == (q + 1) * (hb + 2)) by (nonlinear_arith);
            assert((q + 1) * (hb + 2) <= plan.names.len() * (hb + 2)) by (nonlinear_arith)
                requires
                    q + 1 <= plan.names.len(),
                    hb >= 0,
            ;
        }
        let (w, h) = size_of(schema, &name);
        let ghost rest = sizes_v.skip(q as int);
        assert(rest[0] == box_size(ts, unc_v[q as int]));
        assert(rest.drop_first() =~= sizes_v.skip(q + 1));
        let wi = w as i64;
        let hi = h as i64;
        if x > 0 && x + wi > 100 {
            x = 0;
            y = y + row_height + 2;
            row_height = 0;
        }
        let lines = box_lines(name.as_str(), schema.get(name.as_str()));
        let ghost prev = nodes@.subrange(n as int, n + q).map_values(|nb: NodeBox| (nb.x as int, nb.y as int));
        nodes.push(NodeBox { name, x, y, w, h, lines });
        assert(nodes@.subrange(n as int, n + q + 1).map_values(|nb: NodeBox| (nb.x as int, nb.y as int))
            =~= prev.push((x as int, y as int)));
        x = x + wi + 4;
        if hi > row_height {
            row_height = hi;
        }
        q = q + 1;
    }
    assert(spots =~= nodes@.subrange(n as int, n + q).map_values(|nb: NodeBox| (nb.x as int, nb.y as int)));
    let mut edges: Vec<EdgeRoute> = Vec::new();
    let mut k: usize = 0;
    while k < plan.edges.len()
        invariant
            k <= plan.edges.len(),
            edges.len() == k,
            edges@.map_values(|e: EdgeRoute| edge_view(e)) == plan.edges@.map_values(|e: EdgeRoute| edge_view(e)).take(k as int),
        decreases plan.edges.len() - k,
    {
        let e = &plan.edges[k];
        let ghost before = edges@.map_values(|e: EdgeRoute| edge_view(e));
        let ghost eb = edges@;
        edges.push(
            EdgeRoute {
                from: e.from.clone(),
                to: e.to.clone(),
                from_line: e.from_line,
                to_line: e.to_line,
                bidirectional: e.bidirectional,
            },
        );
        assert(edge_view(edges@[k as int]) == edge_view(plan.edges@[k as int]));
        assert(edges@.map_values(|e: EdgeRoute| edge_view(e)) =~= eb.map_values(|e: EdgeRoute| edge_view(e)).push(edge_view(plan.edges@[k as int])));
        assert(edges@.map_values(|e: EdgeRoute| edge_view(e)) =~= plan.edges@.map_values(|e: EdgeRoute| edge_view(e)).take(k + 1));
        k = k + 1;
    }
    assert(plan.edges@.map_values(|e: EdgeRoute| edge_view(e)).take(k as int) =~= plan.edges@.map_values(|e: EdgeRoute| edge_view(e)));
    let l = Layout { nodes, edges };
    proof {
        assert forall|q: int| #![trigger l.nodes@[n + q]] 0 <= q < unc_v.len() implies node_is(
            ts,
            l.nodes@[n + q],
            unc_v[q],
            spots[q].0,
            spots[q].1,
            box_size(ts, unc_v[q]).0 as int,
            box_size(ts, unc_v[q]).1 as int,
        ) by {
            assert(spots[q] == (l.nodes@[n + q].x as int, l.nodes@[n + q].y as int));
        }
        assert(layout_ok(ts, *plan, ps@, l));
        if has_columns(ts) {
            lemma_layout_ends(ts, *plan, ps@, l);
        }
    }
    l
}


/// Box `b` starts two rows or more below the bottom of box `a`, or on the
/// same top row four columns or more to the right of `a`.
pub open spec fn clear_of(a: NodeBox, b: NodeBox) -> bool {
    ||| b.y >= a.y + a.h + 2
    ||| (b.y == a.y && b.x >= a.x + a.w + 4)
}

proof fn lemma_insert_sorted_len(ps: Seq<Placement>, s: Seq<int>, k: int)
    ensures
        insert_sorted(ps, s, k).len() == s.len() + 1,
    decreases s.len(),
{
    if s.len() > 0 && !key_le(ps, s.last(), k) {
        lemma_insert_sorted_len(ps, s.drop_last(), k);
    }
}

proof fn lemma_sort_order_len(ps: Seq<Placement>, n: nat)
    ensures
        sort_order(ps, n).len() == n,
    decreases n,
{
    if n > 0 {
        lemma_sort_order_len(ps, (n - 1) as nat);
        lemma_insert_sorted_len(ps, sort_order(ps, (n - 1) as nat), n - 1);
    }
}

proof fn lemma_packed_len(ps: Seq<Placement>, ds: Seq<(usize, usize)>, s: Seq<int>)
    ensures
        packed_ys(ps, ds, s).len() == s.len(),
    decreases s.len(),
{
    if s.len() > 0 {
        let r = ps[s[0]].rank;
        lemma_run_len_le(ps, s, r);
        let k = run_len(ps, s, r);
        assert(k >= 1);
        lemma_packed_len(ps, ds, s.skip(k as int));
    }
}

proof fn lemma_max_bottom(ys: Seq<int>, hs: Seq<int>, k: int)
    requires
        0 <= k < ys.len(),
        ys.len() == hs.len(),
    ensures
        max_bottom(ys, hs) >= ys[k] + hs[k],
    decreases ys.len(),
{
    if ys.len() > 1 && k < ys.len() - 1 {
        lemma_max_bottom(ys.drop_last(), hs.drop_last(), k);
    }
}

proof fn lemma_rows_len(sizes: Seq<(nat, nat)>, x: int, y: int, rh: int)
    ensures
        place_rows(sizes, x, y, rh).len() == sizes.len(),
    decreases sizes.len(),
{
    if sizes.len() > 0 {
        let (w, h) = sizes[0];
        let wrap = x > 0 && x + w > 100;
        let x1 = if wrap { 0 } else { x };
        let y1 = if wrap { y + rh + 2 } else { y };
        let rh1 = if wrap { 0 } else { rh };
        let rh2 = if h > rh1 { h as int } else { rh1 };
        lemma_rows_len(sizes.drop_first(), x1 + w + 4, y1, rh2);
    }
}

/// Every spot of a row layout lies on the starting row or below it: on the
/// starting row at or right of the starting column, below it at least two
/// rows under the row height so far.
proof fn lemma_rows_from(sizes: Seq<(nat, nat)>, x: int, y: int, rh: int, q: int)
    requires
        0 <= rh,
        0 <= q < sizes.len(),
    ensures
        place_rows(sizes, x, y, rh)[q].1 >= y,
        place_rows(sizes, x, y, rh)[q].1 == y ==> place_rows(sizes, x, y, rh)[q].0 >= x,
        place_rows(sizes, x, y, rh)[q].1 != y ==> place_rows(sizes, x, y, rh)[q].1 >= y + rh + 2,
    decreases sizes.len(),
{
    let (w, h) = sizes[0];
    let wrap = x > 0 && x + w > 100;
    let x1 = if wrap { 0 } else { x };
    let y1 = if wrap { y + rh + 2 } else { y };
    let rh1 = if wrap { 0 } else { rh };
    let rh2 = if h > rh1 { h as int } else { rh1 };
    let rest = place_rows(sizes.drop_first(), x1 + w + 4, y1, rh2);
    lemma_rows_len(sizes.drop_first(), x1 + w + 4, y1, rh2);
    assert(place_rows(sizes, x, y, rh) == seq![(x1, y1)] + rest);
    if q > 0 {
        lemma_rows_from(sizes.drop_first(), x1 + w + 4, y1, rh2, q - 1);
        assert(place_rows(sizes, x, y, rh)[q] == rest[q - 1]);
    } else {
        assert(place_rows(sizes, x, y, rh)[q] == (x1, y1));
    }
}

/// Two spots of a row layout: the later one is on the same row and clear
/// to the right of the earlier box, or two rows below its bottom.
proof fn lemma_rows_apart(sizes: Seq<(nat, nat)>, x: int, y: int, rh: int, a: int, b: int)
    requires
        0 <= rh,
        0 <= a < b < sizes.len(),
    ensures
        place_rows(sizes, x, y, rh)[b].1 >= place_rows(sizes, x, y, rh)[a].1 + sizes[a].1 + 2
            || (place_rows(sizes, x, y, rh)[b].1 == place_rows(sizes, x, y, rh)[a].1
            && place_rows(sizes, x, y, rh)[b].0 >= place_rows(sizes, x, y, rh)[a].0 + sizes[a].0 + 4),
    decreases sizes.len(),
{
    let (w, h) = sizes[0];
    let wrap = x > 0 && x + w > 100;
    let x1 = if wrap { 0 } else { x };
    let y1 = if wrap { y + rh + 2 } else { y };
    let rh1 = if wrap { 0 } else { rh };
    let rh2 = if h > rh1 { h as int } else { rh1 };
    let rest = place_rows(sizes.drop_first(), x1 + w + 4, y1, rh2);
    lemma_rows_len(sizes.drop_first(), x1 + w + 4, y1, rh2);
    assert(place_rows(sizes, x, y, rh) == seq![(x1, y1)] + rest);
    assert(place_rows(sizes, x, y, rh)[b] == rest[b - 1]);
    if a > 0 {
        lemma_rows_apart(sizes.drop_first(), x1 + w + 4, y1, rh2, a - 1, b - 1);
        assert(place_rows(sizes, x, y, rh)[a] == rest[a - 1]);
    } else {
        lemma_rows_from(sizes.drop_first(), x1 + w + 4, y1, rh2, b - 1);
        assert(place_rows(sizes, x, y, rh)[a] == (x1, y1));
    }
}

/// The boxes that no edge joins never overlap in a computed layout: each
/// lies four columns or more right of an earlier one on the same row, or
/// two rows or more below it; and every one of them lies at least three
/// rows below the bottom of every joined box.
pub proof fn lemma_loose_boxes_apart(ts: Seq<Table>, p: Plan, ps: Seq<Placement>, l: Layout, i: int, j: int)
    requires
        compute_ready(ts, p, ps),
        layout_ok(ts, p, ps, l),
        0 <= i < j < l.nodes.len(),
        p.connected.len() <= j,
    ensures
        i < p.connected.len() ==> l.nodes@[j].y >= l.nodes@[i].y + l.nodes@[i].h + 3,
        p.connected.len() <= i ==> clear_of(l.nodes@[i], l.nodes@[j]),
{
    let n = p.connected.len();
    let order = sort_order(ps, n as nat);
    let ys = packed_ys(ps, p.sizes@, order);
    let unc = unconnected(views(p.names@), views(p.connected@));
    let hs = Seq::new(n as nat, |k: int| p.sizes@[order[k]].1 as int);
    let y0 = if n == 0 { 0 } else { max_bottom(ys, hs) + 3 };
    let sizes = unc.map_values(|nm: Seq<char>| box_size(ts, nm));
    let spots = place_rows(sizes, 0, y0, 0);
    let qj = j - n;
    assert(l.nodes@[n + qj] == l.nodes@[j]);
    assert(node_is(ts, l.nodes@[n + qj], unc[qj], spots[qj].0, spots[qj].1, box_size(ts, unc[qj]).0 as int,
        box_size(ts, unc[qj]).1 as int));
    lemma_rows_from(sizes, 0, y0, 0, qj);
    if i < n {
        lemma_sort_order_len(ps, n as nat);
        lemma_packed_len(ps, p.sizes@, order);
        assert(node_is(ts, l.nodes@[i], p.connected@[order[i]]@, ps[order[i]].x as int, ys[i],
            p.sizes@[order[i]].0 as int, p.sizes@[order[i]].1 as int));
        lemma_max_bottom(ys, hs, i);
    } else {
        let qi = i - n;
        assert(l.nodes@[n + qi] == l.nodes@[i]);
        assert(node_is(ts, l.nodes@[n + qi], unc[qi], spots[qi].0, spots[qi].1, box_size(ts, unc[qi]).0 as int,
            box_size(ts, unc[qi]).1 as int));
        lemma_rows_apart(sizes, 0, y0, 0, qi, qj);
    }
}

proof fn lemma_run_len_props(ps: Seq<Placement>, s: Seq<int>, r: i32, j: int)
    requires
        0 <= j < s.len(),
    ensures
        j < run_len(ps, s, r) ==> ps[s[j]].rank == r,
        j == run_len(ps, s, r) ==> ps[s[j]].rank != r,
    decreases s.len(),
{
    if ps[s[0]].rank == r && j > 0 {
        lemma_run_len_props(ps, s.drop_first(), r, j - 1);
        assert(s.drop_first()[j - 1] == s[j]);
    }
}

proof fn lemma_pack_run_len(ps: Seq<Placement>, ds: Seq<(usize, usize)>, s: Seq<int>)
    ensures
        pack_run(ps, ds, s).len() == s.len(),
{
}

/// In the rows of a drawing order, a box followed by one of the same layer
/// has the next one start two rows below its bottom.
proof fn lemma_packed_step(ps: Seq<Placement>, ds: Seq<(usize, usize)>, s: Seq<int>, k: int)
    requires
        0 <= k,
        k + 1 < s.len(),
        ps[s[k]].rank == ps[s[k + 1]].rank,
    ensures
        packed_ys(ps, ds, s)[k + 1] == packed_ys(ps, ds, s)[k] + ds[s[k]].1 + 2,
    decreases s.len(),
{
    let r = ps[s[0]].rank;
    lemma_run_len_le(ps, s, r);
    let m = run_len(ps, s, r) as int;
    assert(m >= 1);
    let head = s.take(m);
    let tail = s.skip(m);
    lemma_pack_run_len(ps, ds, head);
    lemma_packed_len(ps, ds, tail);
    assert(packed_ys(ps, ds, s) == pack_run(ps, ds, head) + packed_ys(ps, ds, tail));
    if k + 1 < m {
        lemma_run_len_props(ps, s, r, k);
        let cursor = half(ps[head[0]].y + run_bottom(ps, ds, head) - (run_height(ds, head) + 2 * (head.len() - 1)));
        assert(pack_run(ps, ds, head)[k] == cursor + stacked(ds, head.take(k)));
        assert(pack_run(ps, ds, head)[k + 1] == cursor + stacked(ds, head.take(k + 1)));
        assert(head.take(k + 1).drop_last() =~= head.take(k));
        assert(head.take(k + 1).last() == s[k]);
    } else if k + 1 == m {
        lemma_run_len_props(ps, s, r, k);
        lemma_run_len_props(ps, s, r, k + 1);
    } else {
        lemma_packed_step(ps, ds, tail, k - m);
        assert(tail[k - m] == s[k]);
        assert(tail[k - m + 1] == s[k + 1]);
    }
}

/// A drawing order is sorted: by layer, then from the top.
pub open spec fn in_order(ps: Seq<Placement>, s: Seq<int>) -> bool {
    forall|a: int, b: int| 0 <= a < b < s.len() ==> key_le(ps, #[trigger] s[a], #[trigger] s[b])
}

proof fn lemma_insert_sorted_in_order(ps: Seq<Placement>, s: Seq<int>, k: int)
    requires
        in_order(ps, s),
    ensures
        in_order(ps, insert_sorted(ps, s, k)),
        forall|i: int|
            0 <= i < insert_sorted(ps, s, k).len() ==> #[trigger] insert_sorted(ps, s, k)[i] == k || s.contains(
                insert_sorted(ps, s, k)[i],
            ),
    decreases s.len(),
{
    lemma_insert_sorted_len(ps, s, k);
    let t = insert_sorted(ps, s, k);
    if s.len() == 0 {
    } else if key_le(ps, s.last(), k) {
        assert forall|a: int, b: int| 0 <= a < b < t.len() implies key_le(ps, #[trigger] t[a], #[trigger] t[b]) by {
            if b == s.len() {
                assert(key_le(ps, s[a], s[s.len() - 1]) || a == s.len() - 1);
            } else {
                assert(key_le(ps, s[a], s[b]));
            }
        }
        assert forall|i: int| 0 <= i < t.len() implies #[trigger] t[i] == k || s.contains(t[i]) by {
            if i < s.len() {
                assert(t[i] == s[i]);
            }
        }
    } else {
        let d = s.drop_last();
        lemma_insert_sorted_in_order(ps, d, k);
        lemma_insert_sorted_len(ps, d, k);
        let u = insert_sorted(ps, d, k);
        assert(t == u.push(s.last()));
        assert forall|a: int, b: int| 0 <= a < b < t.len() implies key_le(ps, #[trigger] t[a], #[trigger] t[b]) by {
            if b == t.len() - 1 {
                assert(t[a] == u[a]);
                assert(u[a] == k || d.contains(u[a]));
                if u[a] != k {
                    let c = choose|c: int| 0 <= c < d.len() && d[c] == u[a];
                    assert(key_le(ps, s[c], s[s.len() - 1]));
                }
            } else {
                assert(t[a] == u[a] && t[b] == u[b]);
                assert(key_le(ps, u[a], u[b]));
            }
        }
        assert forall|i: int| 0 <= i < t.len() implies #[trigger] t[i] == k || s.contains(t[i]) by {
            if i < u.len() {
                assert(t[i] == u[i]);
                assert(u[i] == k || d.contains(u[i]));
                if u[i] != k {
                    let c = choose|c: int| 0 <= c < d.len() && d[c] == u[i];
                    assert(s[c] == d[c]);
                }
            } else {
                assert(t[i] == s[s.len() - 1]);
            }
        }
    }
}

proof fn lemma_sort_order_in_order(ps: Seq<Placement>, n: nat)
    ensures
        in_order(ps, sort_order(ps, n)),
    decreases n,
{
    if n > 0 {
        lemma_sort_order_in_order(ps, (n - 1) as nat);
        lemma_insert_sorted_in_order(ps, sort_order(ps, (n - 1) as nat), n - 1);
    }
}

/// In the rows of a drawing order, a box followed later by one of the same
/// layer, with only boxes of that layer between, has the later one start at
/// least two rows below its bottom.
proof fn lemma_packed_apart(ps: Seq<Placement>, ds: Seq<(usize, usize)>, s: Seq<int>, a: int, b: int)
    requires
        0 <= a < b < s.len(),
        forall|c: int| a <= c <= b ==> ps[#[trigger] s[c]].rank == ps[s[a]].rank,
    ensures
        packed_ys(ps, ds, s)[b] >= packed_ys(ps, ds, s)[a] + ds[s[a]].1 + 2,
    decreases b - a,
{
    assert(ps[s[b - 1]].rank == ps[s[a]].rank);
    assert(ps[s[b]].rank == ps[s[a]].rank);
    lemma_packed_step(ps, ds, s, b - 1);
    if b - 1 > a {
        lemma_packed_apart(ps, ds, s, a, b - 1);
    }
}

/// Joined boxes of one layer never overlap in a computed layout: of two
/// boxes whose placements share a layer, the later one starts at least two
/// rows below the bottom of the earlier one, exactly two when they follow
/// one another.
pub proof fn lemma_layer_boxes_apart(ts: Seq<Table>, p: Plan, ps: Seq<Placement>, l: Layout, a: int, b: int)
    requires
        compute_ready(ts, p, ps),
        layout_ok(ts, p, ps, l),
        0 <= a < b < p.connected.len(),
        ps[sort_order(ps, p.connected.len() as nat)[a]].rank == ps[sort_order(ps, p.connected.len() as nat)[b]].rank,
    ensures
        l.nodes@[b].y >= l.nodes@[a].y + l.nodes@[a].h + 2,
        b == a + 1 ==> l.nodes@[b].y == l.nodes@[a].y + l.nodes@[a].h + 2,
{
    let n = p.connected.len();
    let order = sort_order(ps, n as nat);
    let ys = packed_ys(ps, p.sizes@, order);
    lemma_sort_order_len(ps, n as nat);
    lemma_sort_order_in_order(ps, n as nat);
    assert forall|c: int| a <= c <= b implies ps[#[trigger] order[c]].rank == ps[order[a]].rank by {
        if a < c {
            assert(key_le(ps, order[a], order[c]));
        }
        if c < b {
            assert(key_le(ps, order[c], order[b]));
        }
    }
    lemma_packed_apart(ps, p.sizes@, order, a, b);
    if b == a + 1 {
        lemma_packed_step(ps, p.sizes@, order, a);
    }
    assert(node_is(ts, l.nodes@[a], p.connected@[order[a]]@, ps[order[a]].x as int, ys[a],
        p.sizes@[order[a]].0 as int, p.sizes@[order[a]].1 as int));
    assert(node_is(ts, l.nodes@[b], p.connected@[order[b]]@, ps[order[b]].x as int, ys[b],
        p.sizes@[order[b]].0 as int, p.sizes@[order[b]].1 as int));
}

/// Line `line` of the box called `n` is one of its column lines (or the
/// `?` line), above the bottom border.
pub open spec fn line_ok(ts: Seq<Table>, n: Seq<char>, line: int) -> bool {
    1 <= line && line + 3 <= box_size(ts, n).1
}

/// Every table has a column, as every table that SQLite creates does.
pub open spec fn has_columns(ts: Seq<Table>) -> bool {
    forall|i: int| 0 <= i < ts.len() ==> (#[trigger] ts[i]).columns.len() >= 1
}

proof fn lemma_line_ok(ts: Seq<Table>, n: Seq<char>, col: Seq<char>)
    requires
        has_columns(ts),
    ensures
        line_ok(ts, n, spec_column_line(lookup(ts, n), col)),
        line_ok(ts, n, spec_pk_line(lookup(ts, n))),
{
    lemma_has_table(ts, n);
    let lk = lookup(ts, n);
    let lines = spec_box_lines(n, lk);
    match lk {
        Some(t) => {
            assert(t == ts[table_index(ts, n)]);
            assert(t.columns.len() >= 1);
            assert(lines.len() == 1 + t.columns.len());
            if exists|i: int| first_column_named(t, col, i) {
                let i = choose|i: int| first_column_named(t, col, i);
                assert(i < t.columns.len());
            }
            if exists|i: int| first_pk_at(t, i) {
                let i = choose|i: int| first_pk_at(t, i);
                assert(i < t.columns.len());
            }
        },
        None => {
            assert(lines.len() == 2);
        },
    }
}

proof fn lemma_fk_edges_lines(ts: Seq<Table>, t: Table, fks: Seq<ForeignKey>, k: int)
    requires
        has_columns(ts),
        0 <= k < spec_fk_edges_of(ts, t, fks).len(),
    ensures
        line_ok(ts, spec_fk_edges_of(ts, t, fks)[k].0, spec_fk_edges_of(ts, t, fks)[k].2),
        line_ok(ts, spec_fk_edges_of(ts, t, fks)[k].1, spec_fk_edges_of(ts, t, fks)[k].3),
    decreases fks.len(),
{
    let pre = spec_fk_edges_of(ts, t, fks.drop_last());
    if k < pre.len() {
        lemma_fk_edges_lines(ts, t, fks.drop_last(), k);
    } else {
        lemma_line_ok(ts, t.name@, fks.last().from_column@);
        lemma_line_ok(ts, fks.last().to_table@, fks.last().to_column@);
    }
}

proof fn lemma_fk_list_lines(ts: Seq<Table>, prefix: Seq<Table>, k: int)
    requires
        has_columns(ts),
        0 <= k < spec_fk_edge_list(ts, prefix).len(),
    ensures
        line_ok(ts, spec_fk_edge_list(ts, prefix)[k].0, spec_fk_edge_list(ts, prefix)[k].2),
        line_ok(ts, spec_fk_edge_list(ts, prefix)[k].1, spec_fk_edge_list(ts, prefix)[k].3),
    decreases prefix.len(),
{
    let pre = spec_fk_edge_list(ts, prefix.drop_last());
    if k < pre.len() {
        lemma_fk_list_lines(ts, prefix.drop_last(), k);
    } else {
        lemma_fk_edges_lines(ts, prefix.last(), prefix.last().foreign_keys@, k - pre.len());
    }
}

proof fn lemma_junction_list_lines(ts: Seq<Table>, prefix: Seq<Table>, k: int)
    requires
        has_columns(ts),
        0 <= k < spec_junction_edge_list(ts, prefix).len(),
    ensures
        line_ok(ts, spec_junction_edge_list(ts, prefix)[k].0, spec_junction_edge_list(ts, prefix)[k].2),
        line_ok(ts, spec_junction_edge_list(ts, prefix)[k].1, spec_junction_edge_list(ts, prefix)[k].3),
    decreases prefix.len(),
{
    let pre = spec_junction_edge_list(ts, prefix.drop_last());
    if k < pre.len() {
        lemma_junction_list_lines(ts, prefix.drop_last(), k);
    } else {
        match junction_pair(prefix.last()) {
            Some((a, b)) => {
                lemma_line_ok(ts, a, seq![]);
                lemma_line_ok(ts, b, seq![]);
            },
            None => {},
        }
    }
}

proof fn lemma_sort_order_range(ps: Seq<Placement>, n: nat, q: int)
    requires
        0 <= q < sort_order(ps, n).len(),
    ensures
        0 <= sort_order(ps, n)[q] < n,
    decreases n,
{
    lemma_sort_order_len(ps, n);
    if n > 0 {
        let pre = sort_order(ps, (n - 1) as nat);
        lemma_sort_order_in_order(ps, (n - 1) as nat);
        lemma_insert_sorted_in_order(ps, pre, n - 1);
        let v = sort_order(ps, n)[q];
        if v != n - 1 {
            let j = choose|j: int| 0 <= j < pre.len() && pre[j] == v;
            lemma_sort_order_range(ps, (n - 1) as nat, j);
        }
    }
}

/// In a computed layout every box is as tall as the box of its name.
proof fn lemma_layout_heights(ts: Seq<Table>, p: Plan, ps: Seq<Placement>, l: Layout, q: int)
    requires
        compute_ready(ts, p, ps),
        layout_ok(ts, p, ps, l),
        0 <= q < l.nodes.len(),
    ensures
        l.nodes@[q].h == box_size(ts, l.nodes@[q].name@).1,
{
    let n = p.connected.len();
    let order = sort_order(ps, n as nat);
    if q < n {
        lemma_sort_order_len(ps, n as nat);
        lemma_sort_order_range(ps, n as nat, q);
        assert(l.nodes@[q] == l.nodes@[q]);
    } else {
        assert(l.nodes@[n + (q - n)] == l.nodes@[q]);
    }
}

/// When every table has a column, every edge of a computed layout attaches
/// at a column line of its boxes (`end_fits`), as routing asks.
pub proof fn lemma_layout_ends(ts: Seq<Table>, p: Plan, ps: Seq<Placement>, l: Layout)
    requires
        compute_ready(ts, p, ps),
        layout_ok(ts, p, ps, l),
        has_columns(ts),
    ensures
        forall|k: int|
            0 <= k < l.edges.len() ==> end_fits(l.nodes@, (#[trigger] l.edges@[k]).from@, l.edges@[k].from_line)
                && end_fits(l.nodes@, l.edges@[k].to@, l.edges@[k].to_line),
{
    let es = spec_plan_edges(ts);
    let fl = spec_fk_edge_list(ts, ts);
    let jl = spec_junction_edge_list(ts, ts);
    assert forall|k: int| 0 <= k < l.edges.len() implies end_fits(l.nodes@, (#[trigger] l.edges@[k]).from@, l.edges@[k].from_line)
        && end_fits(l.nodes@, l.edges@[k].to@, l.edges@[k].to_line) by {
        let e = l.edges@[k];
        assert(l.edges@.map_values(|e: EdgeRoute| edge_view(e))[k] == edge_view(e));
        assert(edge_view(e) == es[k]);
        assert(es.len() == fl.len() + jl.len());
        assert(k < es.len());
        if k < fl.len() {
            assert(es[k] == fl[k]);
            lemma_fk_list_lines(ts, ts, k);
        } else {
            assert(es[k] == jl[k - fl.len()]);
            lemma_junction_list_lines(ts, ts, k - fl.len());
        }
        lemma_find_node(l.nodes@, e.from@);
        lemma_find_node(l.nodes@, e.to@);
        let qf = find_node(l.nodes@, e.from@);
        let qt = find_node(l.nodes@, e.to@);
        if qf >= 0 {
            lemma_layout_heights(ts, p, ps, l, qf);
        }
        if qt >= 0 {
            lemma_layout_heights(ts, p, ps, l, qt);
        }
    }
}

proof fn lemma_fk_edges_of_index(ts: Seq<Table>, t: Table, fks: Seq<ForeignKey>, j: int)
    requires
        0 <= j < fks.len(),
        !in_junction(ts, fks[j].to_table@),
    ensures
        exists|k: int|
            0 <= k < spec_fk_edges_of(ts, t, fks).len() && #[trigger] spec_fk_edges_of(ts, t, fks)[k] == spec_fk_edge(
                ts,
                t,
                fks[j],
            ),
    decreases fks.len(),
{
    let pre = spec_fk_edges_of(ts, t, fks.drop_last());
    let all = spec_fk_edges_of(ts, t, fks);
    if j < fks.len() - 1 {
        assert(fks.drop_last()[j] == fks[j]);
        lemma_fk_edges_of_index(ts, t, fks.drop_last(), j);
        let k = choose|k: int| 0 <= k < pre.len() && #[trigger] pre[k] == spec_fk_edge(ts, t, fks[j]);
        assert(all[k] == pre[k]);
    } else {
        assert(all[pre.len() as int] == spec_fk_edge(ts, t, fks[j]));
    }
}

proof fn lemma_fk_list_index(ts: Seq<Table>, prefix: Seq<Table>, i: int, j: int)
    requires
        0 <= i < prefix.len(),
        !in_junction(ts, prefix[i].name@),
        0 <= j < prefix[i].foreign_keys.len(),
        !in_junction(ts, prefix[i].foreign_keys@[j].to_table@),
    ensures
        exists|k: int|
            0 <= k < spec_fk_edge_list(ts, prefix).len() && #[trigger] spec_fk_edge_list(ts, prefix)[k] == spec_fk_edge(
                ts,
                prefix[i],
                prefix[i].foreign_keys@[j],
            ),
    decreases prefix.len(),
{
    let e = spec_fk_edge(ts, prefix[i], prefix[i].foreign_keys@[j]);
    let pre = spec_fk_edge_list(ts, prefix.drop_last());
    let all = spec_fk_edge_list(ts, prefix);
    if i < prefix.len() - 1 {
        assert(prefix.drop_last()[i] == prefix[i]);
        lemma_fk_list_index(ts, prefix.drop_last(), i, j);
        let k = choose|k: int| 0 <= k < pre.len() && #[trigger] pre[k] == e;
        assert(all[k] == pre[k]);
    } else {
        let t = prefix.last();
        lemma_fk_edges_of_index(ts, t, t.foreign_keys@, j);
        let tail = spec_fk_edges_of(ts, t, t.foreign_keys@);
        let k = choose|k: int| 0 <= k < tail.len() && #[trigger] tail[k] == e;
        assert(all[pre.len() + k] == tail[k]);
    }
}

/// The line of column `col` in the box of `t`: one past the position of
/// its first column called `col`, or 1 when it has none.
proof fn lemma_column_line_at(t: Table, col: Seq<char>, c: int)
    requires
        0 <= c < t.columns.len(),
        t.columns@[c].name@ == col,
        forall|c2: int| 0 <= c2 < c ==> (#[trigger] t.columns@[c2]).name@ != col,
    ensures
        spec_column_line(Some(t), col) == c + 1,
{
    assert(first_column_named(t, col, c));
    let c1 = choose|i: int| first_column_named(t, col, i);
    assert(first_column_named(t, col, c1));
    if c1 < c {
        assert(t.columns@[c1].name@ == col);
        assert(false);
    }
    if c < c1 {
        assert(t.columns@[c].name@ != col);
        assert(false);
    }
    assert(c1 == c);
    assert(exists|i: int| first_column_named(t, col, i));
    let ot: Option<Table> = Some(t);
    assert(ot matches Some(tt) && tt == t);
    assert(spec_column_line(ot, col) == (choose|i: int| first_column_named(t, col, i)) + 1);
}

/// Every foreign key of a table that is not a junction table, to a table
/// that is not one either, gives an edge of the plan from the referencing
/// table to the referenced one, one-headed, that leaves at the line of the
/// key's source column and arrives at the line of the column the key
/// refers to (one past the column's position; line 1 when the table or the
/// column is not there).
pub proof fn lemma_fk_edge_lines(ts: Seq<Table>, i: int, j: int)
    requires
        0 <= i < ts.len(),
        !in_junction(ts, ts[i].name@),
        0 <= j < ts[i].foreign_keys.len(),
        !in_junction(ts, ts[i].foreign_keys@[j].to_table@),
    ensures
        exists|k: int|
            0 <= k < spec_plan_edges(ts).len() && {
                let e = #[trigger] spec_plan_edges(ts)[k];
                let fk = ts[i].foreign_keys@[j];
                &&& e.0 == ts[i].name@
                &&& e.1 == fk.to_table@
                &&& !e.4
                &&& forall|r: Table, c: int|
                    lookup(ts, fk.to_table@) == Some(r) && 0 <= c < r.columns.len() && #[trigger] r.columns@[c].name@
                        == fk.to_column@ && (forall|c2: int| 0 <= c2 < c ==> (#[trigger] r.columns@[c2]).name@ != fk.to_column@)
                        ==> e.3 == c + 1
                &&& forall|r: Table, c: int|
                    lookup(ts, ts[i].name@) == Some(r) && 0 <= c < r.columns.len() && #[trigger] r.columns@[c].name@
                        == fk.from_column@ && (forall|c2: int| 0 <= c2 < c ==> (#[trigger] r.columns@[c2]).name@ != fk.from_column@)
                        ==> e.2 == c + 1
                &&& (match lookup(ts, fk.to_table@) {
                    Some(r) => forall|c: int| 0 <= c < r.columns.len() ==> (#[trigger] r.columns@[c]).name@ != fk.to_column@,
                    None => true,
                }) ==> e.3 == 1
            },
{
    let fk = ts[i].foreign_keys@[j];
    let ev = spec_fk_edge(ts, ts[i], fk);
    lemma_fk_list_index(ts, ts, i, j);
    let fl = spec_fk_edge_list(ts, ts);
    let k = choose|k: int| 0 <= k < fl.len() && #[trigger] fl[k] == ev;
    let es = spec_plan_edges(ts);
    assert(es[k] == fl[k]);
    assert forall|r: Table, c: int|
        lookup(ts, fk.to_table@) == Some(r) && 0 <= c < r.columns.len() && #[trigger] r.columns@[c].name@
            == fk.to_column@ && (forall|c2: int| 0 <= c2 < c ==> (#[trigger] r.columns@[c2]).name@ != fk.to_column@)
            implies ev.3 == c + 1 by {
        lemma_column_line_at(r, fk.to_column@, c);
    }
    assert forall|r: Table, c: int|
        lookup(ts, ts[i].name@) == Some(r) && 0 <= c < r.columns.len() && #[trigger] r.columns@[c].name@
            == fk.from_column@ && (forall|c2: int| 0 <= c2 < c ==> (#[trigger] r.columns@[c2]).name@ != fk.from_column@)
            implies ev.2 == c + 1 by {
        lemma_column_line_at(r, fk.from_column@, c);
    }
    match lookup(ts, fk.to_table@) {
        Some(r) => {
            if forall|c: int| 0 <= c < r.columns.len() ==> (#[trigger] r.columns@[c]).name@ != fk.to_column@ {
                if exists|c: int| first_column_named(r, fk.to_column@, c) {
                    let c = choose|c: int| first_column_named(r, fk.to_column@, c);
                    assert(r.columns@[c].name@ != fk.to_column@);
                }
            }
        },
        None => {},
    }
    assert(es[k] == ev);
}

} // verus!
