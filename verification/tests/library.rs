use erdcat::emit::route::{Bounds, Side, astar, can_route, manhattan, port, record_usage, route_edges, route_mask};
use erdcat::emit::unicode::{
    Dir, Grid, Port, arrow_glyph, ascii_glyph, can_render, dirs_glyph, direction, glyph_dirs,
    render as unicode_render,
};
use erdcat::emit::{self, Format};
use erdcat::layout::{
    EdgeRoute, Layout, NodeBox, Placement, box_lines, can_compute, column_line, compute, line_row,
    lines_fit_check, node_size, pk_line, plan,
};
use erdcat::schema::{Column, ForeignKey, Schema, Table, quote_ident};

fn col(name: &str, ty: &str, pk: bool) -> Column {
    Column {
        name: name.to_string(),
        data_type: ty.to_string(),
        not_null: false,
        primary_key: pk,
    }
}

fn fk(from: &str, table: &str, to: &str) -> ForeignKey {
    ForeignKey {
        from_column: from.to_string(),
        to_table: table.to_string(),
        to_column: to.to_string(),
    }
}

fn table(name: &str, columns: Vec<Column>, foreign_keys: Vec<ForeignKey>) -> Table {
    Table {
        name: name.to_string(),
        columns,
        foreign_keys,
    }
}

fn node(name: &str, x: i64, y: i64, lines: &[&str]) -> NodeBox {
    let lines: Vec<String> = lines.iter().map(|l| l.to_string()).collect();
    let (w, h) = node_size(&lines);
    NodeBox {
        name: name.to_string(),
        x,
        y,
        w,
        h,
        lines,
    }
}

fn empty_layout() -> Layout {
    Layout {
        nodes: Vec::new(),
        edges: Vec::new(),
    }
}

#[test]
fn insert_then_get_gives_the_table_back() {
    let mut s = Schema::new();
    s.insert(table("b", vec![col("id", "INTEGER", true)], vec![]));
    s.insert(table("a", vec![col("x", "TEXT", false)], vec![]));
    assert_eq!(s.get("a").unwrap().columns[0].name, "x");
    assert_eq!(s.get("b").unwrap().columns[0].name, "id");
    assert!(s.get("c").is_none());
    s.insert(table("a", vec![col("y", "TEXT", false)], vec![]));
    assert_eq!(s.get("a").unwrap().columns[0].name, "y");
    assert_eq!(s.get("b").unwrap().columns[0].name, "id");
    let names: Vec<&str> = s.tables().iter().map(|t| t.name.as_str()).collect();
    assert_eq!(names, vec!["a", "b"]);
}

#[test]
fn tables_stay_in_name_order() {
    let mut s = Schema::new();
    for n in ["m", "c", "x", "a", "c"] {
        s.insert(table(n, vec![], vec![]));
    }
    let names: Vec<&str> = s.tables().iter().map(|t| t.name.as_str()).collect();
    assert_eq!(names, vec!["a", "c", "m", "x"]);
}

#[test]
fn junction_targets_cases() {
    let j = table(
        "ab",
        vec![col("a_id", "INTEGER", true), col("b_id", "INTEGER", true)],
        vec![fk("b_id", "b", "id"), fk("a_id", "a", "id")],
    );
    assert_eq!(j.junction_targets(), Some(("b".to_string(), "a".to_string())));
    let extra = table(
        "ab",
        vec![col("a_id", "INTEGER", true), col("b_id", "INTEGER", true), col("note", "TEXT", false)],
        vec![fk("b_id", "b", "id"), fk("a_id", "a", "id")],
    );
    assert_eq!(extra.junction_targets(), None);
    let same = table(
        "aa",
        vec![col("x", "INTEGER", false), col("y", "INTEGER", false)],
        vec![fk("x", "a", "id"), fk("y", "a", "id")],
    );
    assert_eq!(same.junction_targets(), None);
    let one = table("t", vec![col("x", "INTEGER", false)], vec![fk("x", "a", "id")]);
    assert_eq!(one.junction_targets(), None);
}

#[test]
fn quote_ident_doubles_quotes() {
    assert_eq!(quote_ident("plain"), "\"plain\"");
    assert_eq!(quote_ident("a\"b"), "\"a\"\"b\"");
    assert_eq!(quote_ident(""), "\"\"");
}

#[test]
fn resolve_fills_missing_target_columns() {
    let mut s = Schema::new();
    s.insert(table("p", vec![col("x", "TEXT", false), col("pid", "INTEGER", true)], vec![]));
    s.insert(table("q", vec![col("x", "TEXT", false)], vec![]));
    s.insert(table(
        "c",
        vec![col("a", "INTEGER", false), col("b", "INTEGER", false), col("d", "INTEGER", false)],
        vec![fk("a", "p", ""), fk("b", "q", ""), fk("d", "gone", "")],
    ));
    s.resolve_foreign_keys();
    let c = s.get("c").unwrap();
    assert_eq!(c.foreign_keys[0].to_column, "pid");
    assert_eq!(c.foreign_keys[1].to_column, "rowid");
    assert_eq!(c.foreign_keys[2].to_column, "rowid");
}

#[test]
fn box_lines_and_sizes() {
    let t = table("author", vec![col("id", "INTEGER", true), col("name", "", false)], vec![]);
    let lines = box_lines("author", Some(&t));
    assert_eq!(lines, vec!["author", "id PK INTEGER", "name"]);
    assert_eq!(node_size(&lines), (17, 6));
    let missing = box_lines("gone", None);
    assert_eq!(missing, vec!["gone", "?"]);
    assert_eq!(node_size(&vec!["x".to_string()]), (8, 3));
    assert_eq!(node_size(&Vec::new()), (8, 2));
}

#[test]
fn line_numbers_of_columns() {
    let t = table("t", vec![col("a", "", false), col("b", "", true)], vec![]);
    assert_eq!(column_line(Some(&t), "b"), 2);
    assert_eq!(column_line(Some(&t), "zz"), 1);
    assert_eq!(column_line(None, "a"), 1);
    assert_eq!(pk_line(Some(&t)), 2);
    assert_eq!(pk_line(None), 1);
}

#[test]
fn line_row_skips_the_rule() {
    let n = node("t", 0, 10, &["t", "a", "b"]);
    assert_eq!(line_row(&n, 0), 11);
    assert_eq!(line_row(&n, 1), 13);
    assert_eq!(line_row(&n, 2), 14);
}

#[test]
fn glyph_masks_round_trip() {
    for c in ['─', '│', '┌', '┐', '└', '┘', '├', '┤', '┬', '┴', '┼'] {
        assert_eq!(dirs_glyph(glyph_dirs(c).unwrap()), c);
    }
    assert_eq!(glyph_dirs('x'), None);
    assert_eq!(dirs_glyph(0b0010), '─');
    assert_eq!(dirs_glyph(0b0100), '│');
    assert_eq!(dirs_glyph(0), ' ');
    assert_eq!(Dir::R.bit() | Dir::U.bit(), 0b0011);
    assert_eq!(Dir::L.axis(), 0b1010);
    assert_eq!(Dir::D.delta(), (0, 1));
}

#[test]
fn arrows_point_the_way_of_travel() {
    assert_eq!(direction((0, 0), (1, 0)), Dir::R);
    assert_eq!(direction((0, 0), (0, -1)), Dir::U);
    assert_eq!(arrow_glyph(direction((5, 5), (6, 5))), '>');
    assert_eq!(arrow_glyph(direction((5, 5), (4, 5))), '<');
    assert_eq!(arrow_glyph(Dir::D), 'v');
    assert_eq!(arrow_glyph(Dir::U), '^');
}

#[test]
fn manhattan_distance() {
    assert_eq!(manhattan((0, 0), (3, -4)), 7);
    assert_eq!(manhattan((-2, 5), (-2, 5)), 0);
}

fn open_field(w: usize, h: usize) -> (Bounds, Vec<bool>, Vec<u8>) {
    let b = Bounds {
        min_x: 0,
        min_y: 0,
        max_x: w as i64 - 1,
        max_y: h as i64 - 1,
    };
    (b, vec![false; w * h], vec![0; w * h])
}

fn search(start: (i64, i64), goal: (i64, i64), b: Bounds, blocked: &Vec<bool>, used: &Vec<u8>) -> Option<(usize, Vec<(i64, i64)>)> {
    let n = blocked.len() * 5;
    let mut scores = vec![usize::MAX; n];
    let mut previous = vec![((0, 0), 0u8); n];
    let r = astar(start, goal, b, blocked, used, &mut scores, &mut previous);
    assert!(scores.iter().all(|s| *s == usize::MAX));
    r
}

#[test]
fn search_goes_straight_in_the_open() {
    let (b, blocked, used) = open_field(5, 5);
    let (cost, path) = search((0, 0), (4, 0), b, &blocked, &used).unwrap();
    assert_eq!(cost, 4);
    assert_eq!(path, vec![(0, 0), (1, 0), (2, 0), (3, 0), (4, 0)]);
    let (cost, path) = search((1, 1), (1, 1), b, &blocked, &used).unwrap();
    assert_eq!(cost, 0);
    assert_eq!(path, vec![(1, 1)]);
}

#[test]
fn search_pays_for_a_turn() {
    let (b, blocked, used) = open_field(5, 5);
    let (cost, path) = search((0, 0), (2, 2), b, &blocked, &used).unwrap();
    assert_eq!(cost, 4 + 4);
    assert_eq!(path.len(), 5);
}

#[test]
fn search_goes_around_a_wall() {
    let (b, mut blocked, used) = open_field(5, 5);
    for y in 0..4 {
        blocked[y * 5 + 2] = true;
    }
    let (cost, path) = search((0, 0), (4, 0), b, &blocked, &used).unwrap();
    assert_eq!(path.first(), Some(&(0, 0)));
    assert_eq!(path.last(), Some(&(4, 0)));
    for w in path.windows(2) {
        assert_eq!((w[0].0 - w[1].0).abs() + (w[0].1 - w[1].1).abs(), 1);
    }
    for p in &path {
        assert!(!blocked[p.1 as usize * 5 + p.0 as usize]);
    }
    assert!(path.contains(&(2, 4)));
    assert!(cost >= 12 + 8);
}

#[test]
fn search_reports_an_enclosed_goal() {
    let (b, mut blocked, used) = open_field(5, 5);
    blocked[4 * 5 + 3] = true;
    blocked[3 * 5 + 4] = true;
    assert!(search((0, 0), (4, 4), b, &blocked, &used).is_none());
}

#[test]
fn search_avoids_lines_already_drawn() {
    let (b, blocked, mut used) = open_field(5, 3);
    used[5 + 2] = 0b1010;
    let (cost, path) = search((0, 1), (4, 1), b, &blocked, &used).unwrap();
    assert!(!path.contains(&(2, 1)));
    assert!(cost < 4 + 15);
}

#[test]
fn masks_and_usage_of_a_route() {
    let (b, _, mut used) = open_field(5, 1);
    let source = Port {
        border: (0, 0),
        outside: (1, 0),
    };
    let target = Port {
        border: (4, 0),
        outside: (3, 0),
    };
    let path = vec![(1, 0), (2, 0), (3, 0)];
    assert_eq!(route_mask(&path, 0, source, target), 0b1010);
    assert_eq!(route_mask(&path, 2, source, target), 0b1010);
    record_usage(&mut used, b, 5, source, target, &path);
    assert_eq!(used, vec![0, 0b1010, 0b1010, 0b1010, 0]);
}

#[test]
fn ports_on_both_sides() {
    let n = node("t", 10, 0, &["t", "a"]);
    let left = port(&n, 3, Side::Left);
    assert_eq!(left.border, (10, 3));
    assert_eq!(left.outside, (9, 3));
    let right = port(&n, 3, Side::Right);
    assert_eq!(right.border, (10 + n.w as i64 - 1, 3));
    assert_eq!(right.outside, (10 + n.w as i64, 3));
}

fn two_boxes() -> Layout {
    Layout {
        nodes: vec![node("A", 0, 0, &["A", "a"]), node("B", 20, 0, &["B", "b"])],
        edges: vec![EdgeRoute {
            from: "A".to_string(),
            to: "B".to_string(),
            from_line: 1,
            to_line: 1,
            bidirectional: false,
        }],
    }
}

#[test]
fn routes_run_between_facing_sides() {
    let l = two_boxes();
    assert!(can_route(&l));
    let routes = route_edges(&l);
    assert_eq!(routes.len(), 1);
    let r = &routes[0];
    assert_eq!(r.source.border, (7, 3));
    assert_eq!(r.target.border, (20, 3));
    assert_eq!(r.path.first(), Some(&(8, 3)));
    assert_eq!(r.path.last(), Some(&(19, 3)));
    assert_eq!(r.path.len(), 12);
}

#[test]
fn routes_never_cross_boxes() {
    let mut l = two_boxes();
    l.nodes.push(node("C", 10, 1, &["C", "c"]));
    let routes = route_edges(&l);
    assert_eq!(routes.len(), 1);
    for p in &routes[0].path {
        for n in &l.nodes {
            let inside = p.0 >= n.x && p.0 < n.x + n.w as i64 && p.1 >= n.y && p.1 < n.y + n.h as i64;
            assert!(!inside);
        }
    }
}

#[test]
fn edges_to_missing_boxes_are_skipped() {
    let mut l = two_boxes();
    l.edges[0].to = "Z".to_string();
    assert!(route_edges(&l).is_empty());
}

#[test]
fn drawing_two_boxes_and_a_line() {
    let l = two_boxes();
    assert!(can_render(&l));
    let expected: String = [
        " ┌──────┐            ┌──────┐\n",
        " │  A   │            │  B   │\n",
        " ├──────┤            ├──────┤\n",
        " │  a   ├───────────>┤  b   │\n",
        " └──────┘            └──────┘\n",
    ]
    .concat();
    assert_eq!(unicode_render(&l, false), expected);
}

#[test]
fn ascii_drawing_has_no_box_characters() {
    let out = unicode_render(&two_boxes(), true);
    assert!(out.contains("+------+"));
    assert!(out.contains('>'));
    for c in ['─', '│', '┌', '┐', '└', '┘', '├', '┤', '┬', '┴', '┼'] {
        assert!(!out.contains(c));
    }
    assert_eq!(ascii_glyph('┼'), '+');
    assert_eq!(ascii_glyph('q'), 'q');
}

#[test]
fn empty_layout_draws_nothing() {
    assert!(can_render(&empty_layout()));
    assert_eq!(unicode_render(&empty_layout(), false), "");
}

#[test]
fn far_away_boxes_are_refused() {
    let mut l = two_boxes();
    l.nodes[1].x = 1 << 50;
    assert!(!can_route(&l));
    assert!(!can_render(&l));
}

#[test]
fn grid_writes_trimmed_rows() {
    let mut g = Grid {
        cells: vec![' '; 12],
        width: 4,
        height: 3,
        off_x: 0,
        off_y: 0,
    };
    g.put(1, 1, 'x');
    g.merge_mask(2, 1, 0b0010);
    g.merge_mask(2, 1, 0b0001);
    g.merge_mask(1, 1, 0b0010);
    g.put(9, 9, 'z');
    assert_eq!(g.finish(false), " x┴\n");
    assert_eq!(g.finish(true), " x+\n");
    let blank = Grid {
        cells: vec![' '; 4],
        width: 2,
        height: 2,
        off_x: 0,
        off_y: 0,
    };
    assert_eq!(blank.finish(false), "");
}

#[test]
fn empty_schema_in_every_format() {
    let s = Schema::new();
    assert_eq!(
        emit::render(Format::Dot, &s, &empty_layout()),
        "digraph erd {\n  rankdir=LR;\n  node [shape=plaintext];\n}\n"
    );
    assert_eq!(emit::render(Format::Mermaid, &s, &empty_layout()), "erDiagram\n");
    assert_eq!(emit::render(Format::Unicode, &s, &empty_layout()), "");
}

#[test]
fn mermaid_names_are_made_valid() {
    let mut s = Schema::new();
    s.insert(table("9 lives", vec![col("my col", "", false)], vec![]));
    let out = emit::render(Format::Mermaid, &s, &empty_layout());
    assert!(out.contains("    _9_lives {\n"));
    assert!(out.contains("TEXT my_col"));
}

#[test]
fn dot_labels_are_escaped() {
    let mut s = Schema::new();
    s.insert(table("t", vec![col("c", "VARCHAR<10>", false)], vec![]));
    let out = emit::render(Format::Dot, &s, &empty_layout());
    assert!(out.contains("VARCHAR&lt;10&gt;"));
    assert!(!out.contains("VARCHAR<10>"));
}

#[test]
fn unconnected_boxes_go_in_rows() {
    let mut s = Schema::new();
    s.insert(table("a", vec![col("x", "INTEGER", false)], vec![]));
    s.insert(table("b", vec![col("y", "INTEGER", false)], vec![]));
    assert!(lines_fit_check(&s));
    let p = plan(&s);
    assert!(p.connected.is_empty());
    let placements: Vec<Placement> = Vec::new();
    assert!(can_compute(&s, &p, &placements));
    let l = compute(&s, &p, &placements);
    assert_eq!(l.nodes.len(), 2);
    assert_eq!((l.nodes[0].x, l.nodes[0].y), (0, 0));
    assert_eq!((l.nodes[1].x, l.nodes[1].y), (l.nodes[0].w as i64 + 4, 0));
}

#[test]
fn ordinary_schemas_fit() {
    let mut s = Schema::new();
    s.insert(table(&"n".repeat(70000), vec![col("c", "INTEGER", false)], vec![]));
    assert!(lines_fit_check(&s));
    let p = plan(&s);
    assert_eq!(p.names.len(), 1);
    assert!(can_compute(&s, &p, &Vec::new()));
    let l = compute(&s, &p, &Vec::new());
    assert_eq!(l.nodes[0].w, 70004);
}

#[test]
fn junction_to_a_missing_table_gets_a_box() {
    let mut s = Schema::new();
    s.insert(table("a", vec![col("id", "INTEGER", true)], vec![]));
    s.insert(table(
        "a_ghost",
        vec![col("a_id", "INTEGER", false), col("ghost_id", "INTEGER", false)],
        vec![fk("a_id", "a", "id"), fk("ghost_id", "ghost", "id")],
    ));
    let p = plan(&s);
    assert_eq!(p.names, vec!["a".to_string(), "ghost".to_string()]);
    assert_eq!(p.connected, vec!["a".to_string(), "ghost".to_string()]);
    let placements = vec![Placement { x: 0, y: 0, rank: 0 }, Placement { x: 30, y: 0, rank: 1 }];
    assert!(can_compute(&s, &p, &placements));
    let l = compute(&s, &p, &placements);
    assert_eq!(l.nodes[1].name, "ghost");
    assert_eq!(l.nodes[1].lines, vec!["ghost".to_string(), "?".to_string()]);
    assert_eq!(l.edges.len(), 1);
    assert!(l.edges[0].bidirectional);
    assert!(can_render(&l));
}

#[test]
fn placements_must_match_the_plan() {
    let mut s = Schema::new();
    s.insert(table("a", vec![col("id", "INTEGER", true)], vec![]));
    s.insert(table("b", vec![col("a_id", "INTEGER", false)], vec![fk("a_id", "a", "id")]));
    let p = plan(&s);
    assert_eq!(p.connected, vec!["a".to_string(), "b".to_string()]);
    assert!(!can_compute(&s, &p, &Vec::new()));
    let far = vec![Placement { x: 1 << 61, y: 0, rank: 0 }, Placement { x: 0, y: 0, rank: 1 }];
    assert!(!can_compute(&s, &p, &far));
    let near = vec![Placement { x: 0, y: 0, rank: 1 }, Placement { x: 30, y: 0, rank: 0 }];
    assert!(can_compute(&s, &p, &near));
    let l = compute(&s, &p, &near);
    assert_eq!(l.nodes[0].name, "b");
    assert_eq!(l.nodes[1].name, "a");
    assert_eq!(l.edges.len(), 1);
    assert_eq!(l.edges[0].from, "b");
    assert_eq!(l.edges[0].to, "a");
    assert_eq!((l.edges[0].from_line, l.edges[0].to_line), (1, 1));
}

fn clear_of(a: &NodeBox, b: &NodeBox) -> bool {
    b.y >= a.y + a.h as i64 + 2 || (b.y == a.y && b.x >= a.x + a.w as i64 + 4)
}

fn layered_schema() -> Schema {
    let mut s = Schema::new();
    s.insert(table("a", vec![col("id", "INTEGER", true)], vec![]));
    s.insert(table("c", vec![col("a_id", "INTEGER", false)], vec![fk("a_id", "a", "id")]));
    s.insert(table("d", vec![col("a_id", "INTEGER", false)], vec![fk("a_id", "a", "id")]));
    for i in 0..8 {
        let name = format!("loose_{}", i);
        s.insert(table(&name, vec![col(&"wide_column_name_".repeat(i % 3 + 1), "TEXT", false)], vec![]));
    }
    s
}

#[test]
fn boxes_of_one_layer_are_stacked_apart() {
    let s = layered_schema();
    let p = plan(&s);
    assert_eq!(p.connected, vec!["a".to_string(), "c".to_string(), "d".to_string()]);
    let placements = vec![
        Placement { x: 0, y: 0, rank: 0 },
        Placement { x: 30, y: 5, rank: 1 },
        Placement { x: 30, y: 6, rank: 1 },
    ];
    assert!(can_compute(&s, &p, &placements));
    let l = compute(&s, &p, &placements);
    assert_eq!(l.nodes[0].name, "a");
    assert_eq!(l.nodes[0].y, 0);
    assert_eq!((l.nodes[1].name.as_str(), l.nodes[1].y), ("c", 2));
    assert_eq!((l.nodes[2].name.as_str(), l.nodes[2].y), ("d", 9));
    assert_eq!(l.nodes[2].y, l.nodes[1].y + l.nodes[1].h as i64 + 2);
}

#[test]
fn loose_boxes_never_overlap() {
    let s = layered_schema();
    let p = plan(&s);
    let placements = vec![
        Placement { x: 0, y: 0, rank: 0 },
        Placement { x: 30, y: 5, rank: 1 },
        Placement { x: 30, y: 6, rank: 1 },
    ];
    let l = compute(&s, &p, &placements);
    assert_eq!(l.nodes.len(), 11);
    assert_eq!((l.nodes[3].x, l.nodes[3].y), (0, 17));
    let mut rows = 0;
    for j in 3..l.nodes.len() {
        for i in 0..3 {
            assert!(l.nodes[j].y >= l.nodes[i].y + l.nodes[i].h as i64 + 3);
        }
        for i in 3..j {
            assert!(clear_of(&l.nodes[i], &l.nodes[j]));
        }
        if l.nodes[j].x == 0 {
            rows += 1;
        }
    }
    assert!(rows >= 2);
}

fn centred_field() -> (Bounds, Vec<bool>, Vec<u8>) {
    let b = Bounds {
        min_x: -5,
        min_y: -5,
        max_x: 5,
        max_y: 5,
    };
    (b, vec![false; 121], vec![0; 121])
}

#[test]
fn search_breaks_ties_by_queue_order() {
    let (b, blocked, used) = centred_field();
    let r = search((0, 0), (1, 1), b, &blocked, &used);
    assert_eq!(r, Some((6, vec![(0, 0), (1, 0), (1, 1)])));
    let r = search((0, 0), (-1, -1), b, &blocked, &used);
    assert_eq!(r, Some((6, vec![(0, 0), (-1, 0), (-1, -1)])));
}

#[test]
fn search_to_a_goal_outside_the_field() {
    let (b, blocked, used) = centred_field();
    assert_eq!(search((0, 0), (9, 0), b, &blocked, &used), None);
    assert_eq!(search((9, 9), (9, 9), b, &blocked, &used), Some((0, vec![(9, 9)])));
    assert_eq!(search((9, 9), (0, 0), b, &blocked, &used), None);
}

#[test]
fn ascii_drawing_is_the_plain_unicode_drawing() {
    let mut l = two_boxes();
    l.nodes.push(node("C", 10, 8, &["C", "c"]));
    l.edges.push(EdgeRoute {
        from: "C".to_string(),
        to: "A".to_string(),
        from_line: 1,
        to_line: 0,
        bidirectional: true,
    });
    assert!(can_render(&l));
    let unicode = unicode_render(&l, false);
    let ascii = unicode_render(&l, true);
    let plain: String = unicode.chars().map(ascii_glyph).collect();
    assert_eq!(ascii, plain);
    assert_eq!(emit::render(Format::Ascii, &Schema::new(), &l), plain);
}

#[test]
fn search_from_a_start_outside_the_field() {
    let (b, mut blocked, used) = centred_field();
    let r = search((-6, 0), (0, 0), b, &blocked, &used);
    assert_eq!(r, Some((6, vec![(-6, 0), (-5, 0), (-4, 0), (-3, 0), (-2, 0), (-1, 0), (0, 0)])));
    assert_eq!(search((-9, 0), (0, 0), b, &blocked, &used), None);
    assert_eq!(search((-6, -6), (0, 0), b, &blocked, &used), None);
    blocked[5 * 11] = true;
    assert_eq!(search((-6, 0), (0, 0), b, &blocked, &used), None);
}
