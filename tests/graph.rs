use dir_tree::file::{front_matter, is_deleted, is_fence, is_hidden};
use dir_tree::graph::push_decimal;
use dir_tree::store::tag_match;
use dir_tree::{build_graph, neighborhood, resolve, run, tree, Graph, GraphError, MetaData, Node};

fn strings(v: &[&str]) -> Vec<String> {
    v.iter().map(|s| s.to_string()).collect()
}

fn rec(title: &str, deps: &[&str], tags: &[&str]) -> MetaData {
    MetaData {
        title: title.to_string(),
        date: "2023-02-03".to_string(),
        description: String::new(),
        dependencies: strings(deps),
        tags: strings(tags),
    }
}

fn abc() -> Vec<MetaData> {
    vec![rec("A", &[], &[]), rec("B", &["A"], &[]), rec("C", &["A", "B"], &[])]
}

fn titles(ns: &[Node]) -> Vec<String> {
    ns.iter().map(|n| n.title()).collect()
}

fn edges_by_title(ns: &[Node]) -> Vec<(String, String)> {
    let mut es = Vec::new();
    for n in ns {
        for &p in &n.parents {
            let parent = ns.iter().find(|m| m.id == p).unwrap();
            es.push((parent.title(), n.title()));
        }
    }
    es.sort();
    es
}

#[test]
fn dot_file() {
    let mut graph: Graph<String> = Graph::new_strict_digraph();
    graph.add_node(0, "A".to_string());
    graph.add_node(1, "B".to_string());

    graph.add_edge(0, 1);
    let mut dot_str = graph.to_dot_file("");
    dot_str.retain(|c| !c.is_whitespace());

    assert_eq!(dot_str, "strictdigraph{0[label=\"A\"]1[label=\"B\"]0->1}".to_string())
}

#[test]
fn t_resolve() {
    let records = vec![
        rec("古典代数几何：切锥", &[], &["代数几何"]),
        rec("一般代数几何：概形族", &[], &["代数几何", "一般代数几何"]),
    ];
    let nodes = resolve(records, &Vec::new(), &None).unwrap();
    let titles = nodes.into_iter().map(|e| e.title()).collect::<Vec<_>>();
    assert!(titles.contains(&String::from("古典代数几何：切锥")));
    assert!(!titles.contains(&String::from("cuspidal_curve_tan.svg")));
}

#[test]
fn full_tree_example() {
    let nodes = resolve(abc(), &Vec::new(), &None).unwrap();
    assert_eq!(titles(&nodes), strings(&["A", "B", "C"]));
    let linked = tree(nodes).unwrap();
    assert_eq!(linked.len(), 3);
    let want = vec![
        ("A".to_string(), "B".to_string()),
        ("A".to_string(), "C".to_string()),
        ("B".to_string(), "C".to_string()),
    ];
    assert_eq!(edges_by_title(&linked), want);
    // as many edges as dependency references
    let total: usize = linked.iter().map(|n| n.parents.len()).sum();
    assert_eq!(total, 3);
}

#[test]
fn neighborhood_example() {
    let nodes = resolve(abc(), &Vec::new(), &Some("B".to_string())).unwrap();
    assert_eq!(nodes[0].id, 0);
    assert_eq!(nodes[0].title(), "B");
    let near = neighborhood(nodes, 0, 1).unwrap();
    assert_eq!(titles(&near), strings(&["B", "A"]));
    assert_eq!(edges_by_title(&near), vec![("A".to_string(), "B".to_string())]);
}

#[test]
fn neighborhood_depth_zero_is_focal_alone() {
    let nodes = resolve(abc(), &Vec::new(), &Some("C".to_string())).unwrap();
    let near = neighborhood(nodes, 0, 0).unwrap();
    assert_eq!(titles(&near), strings(&["C"]));
    assert!(near[0].parents.is_empty());
}

#[test]
fn neighborhood_cycle_terminates() {
    let records = vec![rec("P", &["Q"], &[]), rec("Q", &["R"], &[]), rec("R", &["P"], &[])];
    let nodes = resolve(records, &Vec::new(), &Some("P".to_string())).unwrap();
    let near = neighborhood(nodes, 0, 10).unwrap();
    assert_eq!(titles(&near), strings(&["P", "Q", "R"]));
    let want = vec![
        ("P".to_string(), "R".to_string()),
        ("Q".to_string(), "P".to_string()),
        ("R".to_string(), "Q".to_string()),
    ];
    assert_eq!(edges_by_title(&near), want);
}

#[test]
fn unresolved_dependency_fails() {
    let nodes = resolve(vec![rec("D", &["X"], &[])], &Vec::new(), &None).unwrap();
    assert_eq!(
        tree(nodes).unwrap_err(),
        GraphError::UnresolvedDependency("D".to_string(), "X".to_string())
    );
    let r = run(vec![rec("D", &["X"], &[])], &Vec::new(), &None, 0, "");
    assert_eq!(r, Err(GraphError::UnresolvedDependency("D".to_string(), "X".to_string())));
}

#[test]
fn unresolved_in_neighborhood_fails() {
    let records = vec![rec("A", &["B"], &[]), rec("B", &["X"], &[])];
    let nodes = resolve(records, &Vec::new(), &Some("A".to_string())).unwrap();
    assert_eq!(
        neighborhood(nodes, 0, 2).unwrap_err(),
        GraphError::UnresolvedDependency("B".to_string(), "X".to_string())
    );
    let records = vec![rec("A", &["B"], &[]), rec("B", &["X"], &[])];
    let nodes = resolve(records, &Vec::new(), &Some("A".to_string())).unwrap();
    // B is reached but not expanded at depth 1
    assert_eq!(titles(&neighborhood(nodes, 0, 1).unwrap()), strings(&["A", "B"]));
}

#[test]
fn duplicate_titles_rejected() {
    let records = vec![rec("A", &[], &["x"]), rec("A", &["B"], &["y"])];
    assert_eq!(resolve(records, &Vec::new(), &None).unwrap_err(), GraphError::DuplicateTitle("A".to_string()));
    let mut set = Vec::new();
    assert_eq!(Node::from(rec("A", &[], &[])).try_add_to_set(&mut set), Ok(()));
    assert_eq!(
        Node::from(rec("A", &["Z"], &["t"])).try_add_to_set(&mut set),
        Err(GraphError::DuplicateTitle("A".to_string()))
    );
    assert_eq!(set.len(), 1);
}

#[test]
fn focal_errors() {
    assert_eq!(
        resolve(abc(), &Vec::new(), &Some("Z".to_string())).unwrap_err(),
        GraphError::FocalNodeNotFound("Z".to_string())
    );
    let records = vec![rec("A", &[], &[]), rec("A", &[], &[])];
    assert_eq!(
        resolve(records, &Vec::new(), &Some("A".to_string())).unwrap_err(),
        GraphError::DuplicateTitle("A".to_string())
    );
}

#[test]
fn focal_gets_id_zero_whatever_the_order() {
    let records = vec![rec("A", &[], &["t"]), rec("B", &[], &["t"]), rec("C", &[], &["u"])];
    let nodes = resolve(records, &strings(&["t"]), &Some("C".to_string())).unwrap();
    assert_eq!(titles(&nodes), strings(&["C", "A", "B"]));
    let ids: Vec<usize> = nodes.iter().map(|n| n.id).collect();
    assert_eq!(ids, vec![0, 1, 2]);
}

#[test]
fn tag_filter() {
    let records = vec![rec("A", &[], &["x"]), rec("B", &[], &["y", "z"]), rec("C", &[], &[])];
    let all = resolve(records, &Vec::new(), &None).unwrap();
    assert_eq!(titles(&all), strings(&["A", "B", "C"]));
    let records = vec![rec("A", &[], &["x"]), rec("B", &[], &["y", "z"]), rec("C", &[], &[])];
    let some = resolve(records, &strings(&["z", "w"]), &None).unwrap();
    assert_eq!(titles(&some), strings(&["B"]));
    assert!(tag_match(&Vec::new(), &Vec::new()));
    assert!(!tag_match(&strings(&["a"]), &Vec::new()));
    assert!(tag_match(&strings(&["a", "b"]), &strings(&["c", "b"])));
    // a filtered-out record cannot be resolved
    let records = vec![rec("A", &[], &["x"]), rec("B", &["A"], &["y"])];
    let nodes = resolve(records, &strings(&["y"]), &None).unwrap();
    assert_eq!(tree(nodes).unwrap_err(), GraphError::UnresolvedDependency("B".to_string(), "A".to_string()));
}

#[test]
fn run_writes_the_dot_text() {
    let text = run(abc(), &Vec::new(), &None, 0, "rankdir=\"LR\"").unwrap();
    let want = "strict digraph {\nrankdir=\"LR\"\n    0 [label=\"A\", peripheries=2]\n    1 [label=\"B\"]\n    2 [label=\"C\"]\n    0 -> 1\n    0 -> 2\n    1 -> 2\n}";
    assert_eq!(text, want);
    let text = run(abc(), &Vec::new(), &Some("B".to_string()), 1, "").unwrap();
    let want = "strict digraph {\n\n    0 [label=\"B\", peripheries=2]\n    1 [label=\"A\"]\n    1 -> 0\n}";
    assert_eq!(text, want);
}

#[test]
fn graph_of_neighborhood_has_no_dangling_edge() {
    let g = build_graph(abc(), &Vec::new(), &Some("C".to_string()), 1).unwrap();
    let ids: Vec<usize> = g.nodes.iter().map(|n| n.0).collect();
    for (i, j) in &g.edges {
        assert!(ids.contains(i) && ids.contains(j));
    }
    assert_eq!(g.edges.len(), 2);
}

#[test]
fn decimal_digits() {
    let mut s = String::from("n=");
    push_decimal(&mut s, 0);
    push_decimal(&mut s, 1907);
    assert_eq!(s, "n=01907");
    let mut graph: Graph<String> = Graph::new_strict_graph();
    graph.add_root(12, "x".to_string());
    graph.add_edge(12, 345);
    assert_eq!(graph.to_dot_file("c"), "strict graph {\nc\n    12 [label=\"x\", peripheries=2]\n    12 -> 345\n}");
}

#[test]
fn front_matter_block() {
    let lines = strings(&["---", "title: 'A'", "tags: []", "--- ", "body"]);
    assert_eq!(front_matter(&lines), Some("---\ntitle: 'A'\ntags: []\n---".to_string()));
    assert_eq!(front_matter(&strings(&["# no block", "---"])), None);
    assert_eq!(front_matter(&strings(&["---", "title: x"])), None);
    assert_eq!(front_matter(&Vec::new()), None);
    assert!(is_fence("---x"));
    assert!(!is_fence("--"));
}

#[test]
fn entry_names() {
    assert!(is_hidden(".git"));
    assert!(!is_hidden("."));
    assert!(!is_hidden("notes.md"));
    assert!(is_deleted("draft_deleted"));
    assert!(!is_deleted("deleted"));
    assert!(!is_deleted("draft_deleted.md"));
}

#[test]
fn dot_text_reads_back() {
    let text = run(abc(), &Vec::new(), &None, 0, "rankdir=\"LR\"").unwrap();
    let mut labels = Vec::new();
    let mut edges = Vec::new();
    for line in text.lines().skip(2) {
        if let Some(stmt) = line.strip_prefix("    ") {
            if let Some((a, b)) = stmt.split_once(" -> ") {
                edges.push((a.parse::<usize>().unwrap(), b.parse::<usize>().unwrap()));
            } else {
                let (id, rest) = stmt.split_once(" [label=\"").unwrap();
                let label = &rest[..rest.find('"').unwrap()];
                labels.push((id.parse::<usize>().unwrap(), label.to_string()));
            }
        }
    }
    assert_eq!(labels, vec![(0, "A".to_string()), (1, "B".to_string()), (2, "C".to_string())]);
    assert_eq!(edges, vec![(0, 1), (0, 2), (1, 2)]);
}
