use nix_closure_graph::annotate::{store_name, symbolic_name};
use nix_closure_graph::export::generate_package_list_text;
use nix_closure_graph::graph::{Package, PackageTree};
use nix_closure_graph::layout::{generate_dot_text, rank_chunk_size};
use nix_closure_graph::parse::{nested_line, parse_tree, process_lines, ParseError};
use nix_closure_graph::text::milli_text;

fn sp(hash: char, name: &str) -> String {
    format!("/nix/store/{}-{}", hash.to_string().repeat(32), name)
}

fn lines(v: &[String]) -> Vec<String> {
    v.to_vec()
}

fn positions(tree: &PackageTree, names: &[&str]) -> Vec<usize> {
    names.iter().map(|n| tree.find_path_pos(n).unwrap()).collect()
}

#[test]
fn root_with_two_children() {
    let (r, a, b) = (sp('r', "root"), sp('a', "liba"), sp('b', "libb"));
    let text = lines(&[r.clone(), format!("├───{}", a), format!("└───{}", b)]);
    let mut tree = parse_tree(text).unwrap();
    assert_eq!(tree.len(), 3);
    assert_eq!(tree.package(0).level, 0);
    assert_eq!(tree.package(1).level, 1);
    assert_eq!(tree.package(2).level, 1);
    assert_eq!(tree.package(0).dependencies, vec![1, 2]);
    tree.calculate_graph_properties();
    let dot = generate_dot_text(&tree);
    assert!(dot.starts_with("digraph {\n"));
    assert!(dot.ends_with("}\n"));
    let node_stmts = dot.lines().filter(|l| l.contains("[fixedsize = true")).count();
    let edge_stmts = dot.lines().filter(|l| l.contains("[penwidth = 0.5]")).count();
    assert_eq!(node_stmts, 3);
    assert_eq!(edge_stmts, 2);
    assert!(dot.contains("0 -> 1 [penwidth = 0.5];\n"));
    assert!(dot.contains("0 -> 2 [penwidth = 0.5];\n"));
}

#[test]
fn dot_text_exact() {
    let (r, a) = (sp('r', "root"), sp('a', "liba"));
    let mut tree = parse_tree(lines(&[r, format!("└───{}", a)])).unwrap();
    tree.set_size_bytes(0, 100);
    tree.set_size_bytes(1, 50);
    tree.calculate_graph_properties();
    let expected = "digraph {\n\
0 [fixedsize = true, height = 2.200, width = 2.200, penwidth = 2, label = \"root\"];\n\
0 -> 1 [penwidth = 0.5];\n\
1 [fixedsize = true, height = 0.200, width = 0.200, penwidth = 2, label = \"liba\"];\n\
subgraph level_0_0 {\nrank = same;\n0; lnode0_0 [style=\"invis\"];\n}\n\
subgraph level_1_0 {\nrank = same;\n1; lnode1_0 [style=\"invis\"];\n}\n\
lnode0_0 -> lnode1_0 [style=\"invis\"];\n\
}\n";
    assert_eq!(generate_dot_text(&tree), expected);
}

#[test]
fn new_lines_give_one_package_each() {
    let (r, a, b, c) = (sp('r', "root"), sp('a', "a"), sp('b', "b"), sp('c', "c"));
    let text = lines(&[
        r.clone(),
        format!("├───{}", a),
        format!("│   └───{}", c),
        format!("└───{}", b),
        format!("    ├───{} [...]", c),
        format!("    └───{} [...]", a),
    ]);
    let tree = parse_tree(text).unwrap();
    assert_eq!(tree.len(), 4);
    let p = positions(&tree, &[&r, &a, &b, &c]);
    assert_eq!(p, vec![0, 1, 3, 2]);
    assert_eq!(tree.package(3).dependencies, vec![2, 1]);
    assert_eq!(tree.package(2).used_by, vec![1, 3]);
    for i in 1..tree.len() {
        assert!(!tree.package(i).used_by.is_empty());
    }
}

#[test]
fn root_level_is_zero() {
    let (r, a, b) = (sp('r', "root"), sp('a', "a"), sp('b', "b"));
    let text = lines(&[r, format!("└───{}", a), format!("    └───{}", b)]);
    let tree = parse_tree(text).unwrap();
    assert_eq!(tree.package(0).level, 0);
    assert_eq!(tree.package(2).level, 2);
}

#[test]
fn level_is_not_propagated_to_children() {
    let mut tree = PackageTree::new(Package::new(sp('r', "r"), 0));
    let a = tree.add_package(Package::new(sp('a', "a"), 0));
    let c = tree.add_package(Package::new(sp('c', "c"), 0));
    let b = tree.add_package(Package::new(sp('b', "b"), 0));
    let d = tree.add_package(Package::new(sp('d', "d"), 0));
    tree.register_dependency(0, a);
    tree.register_dependency(a, c);
    tree.register_dependency(0, b);
    tree.register_dependency(b, d);
    assert_eq!(tree.package(a).level, 1);
    assert_eq!(tree.package(c).level, 2);
    assert_eq!(tree.package(d).level, 2);
    tree.register_dependency(d, a);
    assert_eq!(tree.package(a).level, 3);
    assert_eq!(tree.package(c).level, 2);
}

#[test]
fn graph_sizes_scale_between_bounds() {
    let mut tree = PackageTree::new(Package::new(sp('r', "r"), 0));
    for (i, s) in [(1usize, 'a'), (2, 'b'), (3, 'c')] {
        let p = tree.add_package(Package::new(sp(s, "x"), 0));
        tree.register_dependency(0, p);
        assert_eq!(p, i);
    }
    tree.set_size_bytes(0, 1000);
    tree.set_size_bytes(1, 0);
    tree.set_size_bytes(2, 500);
    tree.set_size_bytes(3, 333);
    tree.calculate_graph_properties();
    let sizes: Vec<usize> = (0..4).map(|i| tree.package(i).graph_size).collect();
    assert_eq!(sizes, vec![2200, 200, 1200, 866]);
    for s in sizes {
        assert!((200..=2200).contains(&s));
    }
}

#[test]
fn equal_sizes_give_smallest_graph_size() {
    let mut tree = PackageTree::new(Package::new(sp('r', "r"), 7));
    for s in ['a', 'b'] {
        let p = tree.add_package(Package::new(sp(s, "x"), 7));
        tree.register_dependency(0, p);
    }
    tree.calculate_graph_properties();
    for i in 0..3 {
        assert_eq!(tree.package(i).graph_size, 200);
    }
}

#[test]
fn three_way_name_collision_is_pairwise() {
    let mut tree = PackageTree::new(Package::new(sp('r', "root"), 0));
    for s in ['a', 'b', 'c'] {
        let p = tree.add_package(Package::new(sp(s, "glibc-2.39"), 0));
        tree.register_dependency(0, p);
    }
    tree.calculate_graph_properties();
    assert_eq!(tree.package(0).short_name, "root");
    assert_eq!(tree.package(1).short_name, format!("{}-glibc-2.39", "a".repeat(32)));
    assert_eq!(tree.package(2).short_name, format!("{}-glibc-2.39", "b".repeat(32)));
    assert_eq!(tree.package(3).short_name, "glibc-2.39");
}

#[test]
fn rank_chunk_sizes() {
    assert_eq!(rank_chunk_size(50), 20);
    assert_eq!(rank_chunk_size(5), 20);
    assert_eq!(rank_chunk_size(0), 20);
    assert_eq!(rank_chunk_size(19), 20);
    assert_eq!(rank_chunk_size(usize::MAX), 20);
}

#[test]
fn large_level_is_split_into_rank_groups() {
    let mut tree = PackageTree::new(Package::new(sp('r', "r"), 0));
    for i in 0..25 {
        let p = tree.add_package(Package::new(format!("/nix/store/{:032}-p{}", i, i), 0));
        tree.register_dependency(0, p);
    }
    tree.calculate_graph_properties();
    let dot = generate_dot_text(&tree);
    assert!(dot.contains("subgraph level_1_0 {"));
    assert!(dot.contains("subgraph level_1_1 {\nrank = same;\n21; 22; 23; 24; 25; lnode1_1"));
    assert!(dot.contains("lnode0_0 -> lnode1_0 [style=\"invis\"];\nlnode1_0 -> lnode1_1 [style=\"invis\"];\n}\n"));
}

#[test]
fn table_has_one_row_per_package() {
    let (r, a, b, c) = (sp('r', "root"), sp('a', "a"), sp('b', "b"), sp('c', "c"));
    let text = lines(&[
        r,
        format!("├───{}", b),
        format!("│   └───{}", c),
        format!("└───{}", a),
        format!("    └───{} [...]", c),
    ]);
    let mut tree = parse_tree(text).unwrap();
    tree.register_dependency(3, 1);
    tree.calculate_graph_properties();
    let csv = generate_package_list_text(&tree);
    let mut rows = csv.lines();
    assert_eq!(rows.next(), Some("pos,level,package_name,size_bytes,dependencies,path"));
    let rows: Vec<&str> = rows.collect();
    assert_eq!(rows.len(), tree.len());
    for row in rows {
        let pos: usize = row.split(',').next().unwrap().parse().unwrap();
        let quoted = row.split('"').nth(1).unwrap();
        let deps: Vec<usize> = if quoted.is_empty() {
            Vec::new()
        } else {
            quoted.split(',').map(|d| d.parse().unwrap()).collect()
        };
        let mut expected = tree.package(pos).dependencies.clone();
        expected.sort();
        assert_eq!(deps, expected);
    }
    assert_eq!(tree.package(3).dependencies, vec![1, 2]);
}

#[test]
fn table_row_format() {
    let (r, a) = (sp('r', "root"), sp('a', "liba"));
    let mut tree = parse_tree(lines(&[r.clone(), format!("└───{}", a)])).unwrap();
    tree.set_size_bytes(0, 42);
    tree.calculate_graph_properties();
    let csv = generate_package_list_text(&tree);
    let expected = format!(
        "pos,level,package_name,size_bytes,dependencies,path\n0,0,root,42,\"1\",{}\n1,1,liba,0,\"\",{}\n",
        r, a
    );
    assert_eq!(csv, expected);
}

#[test]
fn unexpected_line_is_refused() {
    let text = lines(&[sp('r', "r"), "garbage".to_string()]);
    assert_eq!(parse_tree(text).err(), Some(ParseError::UnexpectedLine));
    assert_eq!(parse_tree(Vec::new()).err(), Some(ParseError::UnexpectedLine));
}

#[test]
fn relative_path_is_refused() {
    let text = lines(&[sp('r', "r"), "└───nix/store/x".to_string()]);
    assert_eq!(parse_tree(text).err(), Some(ParseError::NotAbsolutePath));
    assert_eq!(parse_tree(vec!["root".to_string()]).err(), Some(ParseError::NotAbsolutePath));
}

#[test]
fn unknown_back_reference_is_refused() {
    let text = lines(&[sp('r', "r"), format!("└───{} [...]", sp('z', "z"))]);
    assert_eq!(parse_tree(text).err(), Some(ParseError::UnknownBackReference));
}

#[test]
fn back_reference_to_parent_adds_no_edge() {
    let r = sp('r', "r");
    let mut tree = PackageTree::new(Package::new(r.clone(), 0));
    let res = process_lines(&mut tree, 0, vec![format!("└───{} [...]", r)]);
    assert_eq!(res, Ok(()));
    assert_eq!(tree.len(), 1);
    assert!(tree.package(0).dependencies.is_empty());
}

#[test]
fn nested_lines_lose_one_prefix() {
    assert_eq!(nested_line("│   └───/x"), Some("└───/x".to_string()));
    assert_eq!(nested_line("    ├───/x [...]"), Some("├───/x [...]".to_string()));
    assert_eq!(nested_line("├───/x"), None);
}

#[test]
fn names_from_paths() {
    let p = sp('a', "hello-1.0");
    assert_eq!(symbolic_name(&p), "hello-1.0");
    assert_eq!(store_name(&p), format!("{}-hello-1.0", "a".repeat(32)));
    assert_eq!(store_name("/nix/store//nix/store/x"), "x");
    assert_eq!(symbolic_name("/short"), "/short");
}

#[test]
fn thousandths_text() {
    assert_eq!(milli_text(200), "0.200");
    assert_eq!(milli_text(1234), "1.234");
    assert_eq!(milli_text(2050), "2.050");
}

#[test]
fn total_bytes_and_lookup() {
    let mut tree = PackageTree::new(Package::new(sp('r', "r"), 10));
    let a = tree.add_package(Package::new(sp('a', "a"), 32));
    tree.register_dependency(0, a);
    assert_eq!(tree.sum_package_bytes(), 42);
    assert_eq!(tree.find_path_pos(&sp('a', "a")), Some(1));
    assert_eq!(tree.find_path_pos("/nope"), None);
}

#[test]
fn package_changed_in_place() {
    let mut tree = PackageTree::new(Package::new(sp('r', "r"), 1));
    let a = tree.add_package(Package::new(sp('a', "a"), 2));
    tree.register_dependency(0, a);
    tree.package_mut(a).size_bytes = 40;
    assert_eq!(tree.package(a).size_bytes, 40);
    assert_eq!(tree.package(0).size_bytes, 1);
    assert_eq!(tree.sum_package_bytes(), 41);
}

fn levels(tree: &PackageTree) -> Vec<usize> {
    (0..tree.len()).map(|i| tree.package(i).level).collect()
}

#[test]
fn one_layer_stripped_per_depth() {
    let text = lines(&[
        "/R".to_string(),
        "├───/a".to_string(),
        "│   └───/b".to_string(),
        "│       └───/c".to_string(),
        "└───/d".to_string(),
    ]);
    let tree = parse_tree(text).unwrap();
    assert_eq!(tree.len(), 5);
    assert_eq!(tree.package(2).dependencies, vec![3]);
    assert_eq!(tree.package(3).used_by, vec![2]);
    assert_eq!(levels(&tree), vec![0, 1, 2, 3, 1]);
}

#[test]
fn back_reference_relevels_without_propagating() {
    let text = lines(&[
        "/R".to_string(),
        "├───/X".to_string(),
        "│   └───/Y".to_string(),
        "└───/A".to_string(),
        "    ├───/B".to_string(),
        "    │   └───/X [...]".to_string(),
        "    └───/C".to_string(),
    ]);
    let tree = parse_tree(text).unwrap();
    assert_eq!(levels(&tree), vec![0, 3, 2, 1, 2, 2]);
    assert_eq!(tree.package(1).used_by, vec![0, 4]);
}

#[test]
fn back_reference_adds_edge_not_node() {
    let text = lines(&[
        "/R".to_string(),
        "├───/A".to_string(),
        "│   └───/C".to_string(),
        "└───/B".to_string(),
        "    └───/C [...]".to_string(),
    ]);
    let tree = parse_tree(text).unwrap();
    assert_eq!(tree.len(), 4);
    assert_eq!(tree.package(1).dependencies, vec![2]);
    assert_eq!(tree.package(3).dependencies, vec![2]);
    assert_eq!(tree.package(2).used_by, vec![1, 3]);
    assert_eq!(tree.package(2).level, 2);
    assert!(tree.package(0).used_by.is_empty());
}

#[test]
fn rejected_first_line_leaves_tree() {
    let mut tree = PackageTree::new(Package::new("/R".to_string(), 0));
    let res = process_lines(&mut tree, 0, vec!["├───A".to_string()]);
    assert_eq!(res, Err(ParseError::NotAbsolutePath));
    assert_eq!(tree.len(), 1);
    assert!(tree.package(0).dependencies.is_empty());
}
