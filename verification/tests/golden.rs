use dagre::graph::{Graph, GraphOptions};
use dagre::{EdgeLabel, NodeLabel, RankDir, layout as dagre_layout};
use erdcat::emit::unicode::can_render;
use erdcat::emit::{self, Format};
use erdcat::layout::{self, Layout, Placement, Plan};
use erdcat::schema::{Column, ForeignKey, Schema, Table, quote_ident};
use rusqlite::Connection;

fn load(conn: &Connection) -> Schema {
    let mut stmt = conn
        .prepare(
            "SELECT name FROM sqlite_master \
             WHERE type = 'table' AND name NOT LIKE 'sqlite_%' \
             ORDER BY LOWER(name)",
        )
        .unwrap();
    let names: Vec<String> = stmt
        .query_map([], |row| row.get(0))
        .unwrap()
        .collect::<Result<Vec<_>, _>>()
        .unwrap();
    let mut schema = Schema::new();
    for name in &names {
        let mut table = Table {
            name: name.clone(),
            columns: Vec::new(),
            foreign_keys: Vec::new(),
        };
        let mut col_stmt = conn
            .prepare(&format!("PRAGMA table_info({})", quote_ident(name)))
            .unwrap();
        let mut cols = col_stmt.query([]).unwrap();
        while let Some(row) = cols.next().unwrap() {
            let cname: String = row.get(1).unwrap();
            let ctype: String = row.get(2).unwrap();
            let notnull: i64 = row.get(3).unwrap();
            let pk: i64 = row.get(5).unwrap();
            table.columns.push(Column {
                name: cname,
                data_type: ctype,
                not_null: notnull != 0,
                primary_key: pk > 0,
            });
        }
        let mut fk_stmt = conn
            .prepare(&format!("PRAGMA foreign_key_list({})", quote_ident(name)))
            .unwrap();
        let mut fks = fk_stmt.query([]).unwrap();
        while let Some(row) = fks.next().unwrap() {
            let to_table: String = row.get(2).unwrap();
            let from_column: String = row.get(3).unwrap();
            let to_column: Option<String> = row.get(4).unwrap();
            table.foreign_keys.push(ForeignKey {
                from_column,
                to_table,
                to_column: to_column.unwrap_or_default(),
            });
        }
        schema.insert(table);
    }
    schema.resolve_foreign_keys();
    schema
}

fn place(plan: &Plan) -> Vec<Placement> {
    let mut g = Graph::<NodeLabel, EdgeLabel>::with_options(GraphOptions {
        directed: true,
        multigraph: true,
        compound: false,
    });
    for (name, size) in plan.connected.iter().zip(plan.sizes.iter()) {
        g.set_node(
            name.as_str(),
            Some(NodeLabel {
                width: size.0 as f64,
                height: size.1 as f64,
                ..Default::default()
            }),
        );
    }
    for edge in &plan.edges {
        g.set_edge(edge.from.as_str(), edge.to.as_str(), Some(EdgeLabel::default()), None);
    }
    let opts = dagre::LayoutOptions {
        rankdir: RankDir::LR,
        nodesep: 2.0,
        ranksep: 8.0,
        ..Default::default()
    };
    if !plan.connected.is_empty() {
        dagre_layout(&mut g, Some(opts));
    }
    let mut placements = Vec::new();
    for (name, size) in plan.connected.iter().zip(plan.sizes.iter()) {
        let label = g.node(name).expect("laid-out node");
        placements.push(Placement {
            x: (label.x.unwrap_or(0.0) - size.0 as f64 / 2.0).round() as i64,
            y: (label.y.unwrap_or(0.0) - size.1 as f64 / 2.0).round() as i64,
            rank: label.rank.unwrap_or(0),
        });
    }
    placements
}

fn layout_of(schema: &Schema) -> Layout {
    let plan = layout::plan(schema);
    let placements = place(&plan);
    layout::compute(schema, &plan, &placements)
}

fn render(format: Format, schema: &Schema) -> String {
    let lay = layout_of(schema);
    if format == Format::Unicode || format == Format::Ascii {
        assert!(can_render(&lay));
    }
    emit::render(format, schema, &lay)
}

fn db(sql: &str) -> Schema {
    let conn = Connection::open_in_memory().unwrap();
    conn.execute_batch(sql).unwrap();
    load(&conn)
}

fn fixture() -> Schema {
    db("CREATE TABLE author (id INTEGER PRIMARY KEY, name TEXT NOT NULL);
         CREATE TABLE book (id INTEGER PRIMARY KEY, title TEXT, author_id INTEGER REFERENCES author(id));
         CREATE TABLE author_book (
             author_id INTEGER REFERENCES author(id),
             book_id INTEGER REFERENCES book(id),
             PRIMARY KEY (author_id, book_id)
         );
         CREATE TABLE lonely (x INTEGER);")
}

fn stress_fixture() -> Schema {
    db("CREATE TABLE author (
             id INTEGER PRIMARY KEY,
             name TEXT NOT NULL,
             email TEXT
         );
         CREATE TABLE book (
             id INTEGER PRIMARY KEY,
             title TEXT NOT NULL,
             author_id INTEGER REFERENCES author(id),
             co_author_id INTEGER REFERENCES author(id)
         );
         CREATE TABLE author_book (
             author_id INTEGER REFERENCES author(id),
             book_id INTEGER REFERENCES book(id),
             PRIMARY KEY (author_id, book_id)
         );
         CREATE TABLE chapter (
             id INTEGER PRIMARY KEY,
             book_id INTEGER REFERENCES book(id),
             title TEXT
         );
         CREATE TABLE node (
             id INTEGER PRIMARY KEY,
             parent_id INTEGER REFERENCES node(id),
             title TEXT
         );")
}

fn row<'a>(diagram: &'a str, text: &str) -> &'a str {
    diagram.lines().find(|line| line.contains(text)).unwrap()
}

#[test]
fn dot_renders_tables_edges_and_junctions() {
    let dot = render(Format::Dot, &fixture());
    assert!(dot.starts_with("digraph erd {"));
    assert!(dot.contains("\"author\""));
    assert!(dot.contains("\"book\""));
    assert!(dot.contains("\"lonely\""));
    assert!(!dot.contains("\"author_book\""));
    assert!(dot.contains("\"book\":col_author_id -> \"author\":col_id"));
    assert!(dot.contains("arrowtail=crow"));
    let mn = dot.contains("\"book\" -> \"author\"") || dot.contains("\"author\" -> \"book\"");
    assert!(mn);
    assert!(dot.ends_with("}\n"));
}

#[test]
fn mermaid_renders_entities_and_relationships() {
    let mmd = render(Format::Mermaid, &fixture());
    assert!(mmd.starts_with("erDiagram\n"));
    assert!(mmd.contains("author {"));
    assert!(mmd.contains("INTEGER id PK"));
    assert!(mmd.contains("author ||--o{ book"));
    assert!(!mmd.contains("author_book {"));
}

#[test]
fn self_reference_and_missing_target_resolve() {
    let schema = db("CREATE TABLE node (id INTEGER PRIMARY KEY, parent_id INTEGER REFERENCES node);
         CREATE TABLE orphan (id INTEGER, other_id INTEGER REFERENCES missing);");
    let dot = render(Format::Dot, &schema);
    assert!(dot.contains("\"node\":col_parent_id -> \"node\":col_id"));
    assert!(dot.contains("\"orphan\":col_other_id -> \"missing\""));
    let unicode = render(Format::Unicode, &schema);
    assert!(!row(&unicode, "missing").contains(['<', '>']));
    assert!(row(&unicode, "?").contains(['<', '>']));
}

#[test]
fn unicode_renders_boxes_columns_and_edges() {
    let out = render(Format::Unicode, &fixture());
    assert!(out.contains('┌'));
    assert!(out.contains('├'));
    assert!(out.contains("│ author"));
    assert!(out.contains("id PK"));
    assert!(out.contains("title TEXT"));
    assert!(!out.contains("author_book"));
    assert!(row(&out, "author_id INTEGER").contains(['├', '┤']));
    assert!(row(&out, "id PK INTEGER").contains(['<', '>']));
    assert!(!row(&out, "author     ").contains(['<', '>']));
}

#[test]
fn unicode_simple_fk_matches_golden_grid() {
    let schema = db("CREATE TABLE author (id INTEGER PRIMARY KEY, name TEXT);
         CREATE TABLE book (
             id INTEGER PRIMARY KEY,
             title TEXT,
             author_id INTEGER REFERENCES author(id)
         );");
    let expected: String = [
        " ┌───────────────────┐\n",
        " │       book        │        ┌───────────────┐\n",
        " ├───────────────────┤        │    author     │\n",
        " │   id PK INTEGER   │        ├───────────────┤\n",
        " │    title TEXT     │       >┤ id PK INTEGER │\n",
        " │ author_id INTEGER ├───────┘│   name TEXT   │\n",
        " └───────────────────┘        └───────────────┘\n",
    ]
    .concat();
    assert_eq!(render(Format::Unicode, &schema), expected);
}

#[test]
fn ascii_variant_uses_plain_glyphs() {
    let out = render(Format::Ascii, &fixture());
    assert!(out.contains('+'));
    assert!(out.contains('|'));
    assert!(!out.contains('─'));
}

#[test]
fn unicode_renders_self_reference_loop() {
    let schema = db("CREATE TABLE node (id INTEGER PRIMARY KEY, parent_id INTEGER REFERENCES node);");
    let out = render(Format::Unicode, &schema);
    let expected: String = [
        " ┌───────────────────┐\n",
        " │       node        │\n",
        " ├───────────────────┤\n",
        " │   id PK INTEGER   ├<\n",
        " │ parent_id INTEGER ├┘\n",
        " └───────────────────┘\n",
    ]
    .concat();
    assert_eq!(out, expected);
    assert!(row(&out, "parent_id INTEGER").contains(['├', '┤']));
    assert!(row(&out, "id PK INTEGER").contains(['<', '>']));
    assert!(!row(&out, "node").contains(['<', '>']));
}

#[test]
fn parallel_and_junction_edges_use_column_ports() {
    let out = render(Format::Unicode, &stress_fixture());
    assert!(row(&out, "book_id INTEGER").contains(['├', '┤']));
    assert!(row(&out, "author_id INTEGER").contains(['├', '┤']));
    assert!(row(&out, "co_author_id INTEGER").contains(['├', '┤']));
    assert!(row(&out, "parent_id INTEGER").contains(['├', '┤']));
    assert!(!row(&out, "chapter     ").contains(['<', '>']));
    assert!(!row(&out, "book         ").contains(['<', '>']));
    assert!(!row(&out, "author     ").contains(['<', '>']));
    assert!(!row(&out, "node        ").contains(['<', '>']));
}

#[test]
fn print_unicode_diagram() {
    println!("{}", render(Format::Unicode, &stress_fixture()));
}

#[test]
fn a_chain_of_tables_renders() {
    let mut sql = String::from("CREATE TABLE t0 (id INTEGER PRIMARY KEY, name TEXT);\n");
    for i in 1..14 {
        sql.push_str(&format!(
            "CREATE TABLE t{i} (id INTEGER PRIMARY KEY, label TEXT, up_id INTEGER REFERENCES t{}(id), side_id INTEGER REFERENCES t0(id));\n",
            i - 1
        ));
    }
    let schema = db(&sql);
    let out = render(Format::Unicode, &schema);
    for i in 0..14 {
        assert!(out.contains(&format!("│ t{i} ")) || out.contains(&format!(" t{i} ")));
    }
    assert!(out.contains('>'));
}
