use promptfuzz::analysis::header::{
    extract_header_dependency, get_include_lib_headers, get_include_sys_headers,
    get_include_sys_headers_str, get_included_sys_header, get_independent_headers,
    header_base_name, is_a_lib_header, is_header_extension, parse_dependency_tree, HeaderError,
    TreeNode,
};
use promptfuzz::analysis::include_graph::get_reachable_nodes;

fn count_nodes(node: &TreeNode) -> usize {
    1 + node.children.iter().map(count_nodes).sum::<usize>()
}

fn names(node: &TreeNode) -> Vec<String> {
    node.children.iter().map(|c| c.name.clone()).collect()
}

#[test]
fn test_library_header() {
    // The headers of cJSON: cJSON_Utils.h includes cJSON.h, which includes system headers.
    let mut cjson = TreeNode::new("cJSON.h".to_string());
    cjson.add_child(TreeNode::new("/usr/include/stddef.h".to_string()));
    let mut utils = TreeNode::new("cJSON_Utils.h".to_string());
    let mut inner = TreeNode::new("cJSON.h".to_string());
    inner.add_child(TreeNode::new("/usr/include/stddef.h".to_string()));
    utils.add_child(inner);
    let trees = vec![cjson, utils];
    let headers = get_include_lib_headers(&trees).unwrap();
    println!("{headers:?}");
}

#[test]
fn test_get_independent_headers() {
    // Create test data
    let mut root1 = TreeNode::new("header1.h".to_string());
    let mut child1 = TreeNode::new("child1.h".to_string());
    let child2 = TreeNode::new("child2.h".to_string());
    child1.add_child(child2);
    root1.add_child(child1);

    let mut root2 = TreeNode::new("header2.h".to_string());
    let child3 = TreeNode::new("child3.h".to_string());
    root2.add_child(child3);

    let trees = vec![root1, root2];

    let result = get_independent_headers(&trees).unwrap();

    assert_eq!(result.len(), 2);
    assert!(result.contains(&"header1.h"));
    assert!(result.contains(&"header2.h"));
    assert!(!result.contains(&"child1.h"));
    assert!(!result.contains(&"child2.h"));
    assert!(!result.contains(&"child3.h"));
}

#[test]
fn test_get_independent_headers_complex() {
    let mut root1 = TreeNode::new("main.h".to_string());
    let mut common = TreeNode::new("common.h".to_string());
    let util1 = TreeNode::new("util1.h".to_string());
    let util2 = TreeNode::new("util2.h".to_string());
    common.add_child(util1);
    common.add_child(util2);
    root1.add_child(common);

    let mut root2 = TreeNode::new("secondary.h".to_string());
    let mut helper = TreeNode::new("helper.h".to_string());
    let base = TreeNode::new("base.h".to_string());
    helper.add_child(base);
    root2.add_child(helper);

    let trees = vec![root1, root2];

    let result = get_independent_headers(&trees).unwrap();

    assert_eq!(result.len(), 2);
    assert!(result.contains(&"main.h"));
    assert!(result.contains(&"secondary.h"));

    assert!(!result.contains(&"common.h"));
    assert!(!result.contains(&"util1.h"));
    assert!(!result.contains(&"util2.h"));
    assert!(!result.contains(&"helper.h"));
    assert!(!result.contains(&"base.h"));
}

#[test]
fn test_get_independent_headers_circular() {
    // A -> B -> C -> A (circular dependency), D -> E (independent chain)
    let mut node_a = TreeNode::new("A.h".to_string());
    let mut node_b = TreeNode::new("B.h".to_string());
    let mut node_c = TreeNode::new("C.h".to_string());

    node_c.add_child(TreeNode::new("A.h".to_string()));
    node_b.add_child(node_c);
    node_a.add_child(node_b);

    let mut node_d = TreeNode::new("D.h".to_string());
    let node_e = TreeNode::new("E.h".to_string());
    node_d.add_child(node_e);

    let trees = vec![node_a, node_d];

    let result = get_independent_headers(&trees).unwrap();

    assert!(!result.is_empty());
    assert!(result.contains(&"D.h"));
    println!("Circular dependency test result: {:?}", result);
}

#[test]
fn test_get_independent_headers_all_circular() {
    // Tree1: X -> Y -> Z -> X, Tree2: P -> Q -> P
    let mut node_x = TreeNode::new("X.h".to_string());
    let mut node_y = TreeNode::new("Y.h".to_string());
    let mut node_z = TreeNode::new("Z.h".to_string());

    node_z.add_child(TreeNode::new("X.h".to_string()));
    node_y.add_child(node_z);
    node_x.add_child(node_y);

    let mut node_p = TreeNode::new("P.h".to_string());
    let mut node_q = TreeNode::new("Q.h".to_string());

    node_q.add_child(TreeNode::new("P.h".to_string()));
    node_p.add_child(node_q);

    let trees = vec![node_x, node_p];

    let result = get_independent_headers(&trees).unwrap();

    assert!(!result.is_empty());
    assert!(result.len() <= 2);

    println!("All circular dependency test result: {:?}", result);

    let has_main_tree_coverage =
        result.contains(&"X.h") || result.contains(&"Y.h") || result.contains(&"Z.h");
    let has_second_tree_coverage = result.contains(&"P.h") || result.contains(&"Q.h");

    assert!(has_main_tree_coverage, "Should cover the main dependency tree");
    assert!(has_second_tree_coverage, "Should cover the second dependency tree");
}

#[test]
fn independent_headers_are_sorted_and_unique() {
    let mut b = TreeNode::new("b.h".to_string());
    b.add_child(TreeNode::new("x.h".to_string()));
    let a = TreeNode::new("a.h".to_string());
    let b2 = TreeNode::new("b.h".to_string());
    let trees = vec![b, a, b2];
    let result = get_independent_headers(&trees).unwrap();
    assert_eq!(result, vec!["a.h", "b.h"]);
}

#[test]
fn independent_headers_of_no_trees() {
    let trees: Vec<TreeNode> = Vec::new();
    assert!(get_independent_headers(&trees).unwrap().is_empty());
}

#[test]
fn circular_cover_reaches_every_header() {
    // P -> Q -> P: one header covers both.
    let mut node_p = TreeNode::new("P.h".to_string());
    let mut node_q = TreeNode::new("Q.h".to_string());
    node_q.add_child(TreeNode::new("P.h".to_string()));
    node_p.add_child(node_q);
    let trees = vec![node_p];
    let result = get_independent_headers(&trees).unwrap();
    assert_eq!(result.len(), 1);
}

#[test]
fn tree_node_new_removes_dot_slash() {
    let t = TreeNode::new("./include/./png.h".to_string());
    assert_eq!(t.get_name(), "include/png.h");
    assert!(t.children.is_empty());
    let t = TreeNode::new("../x.h".to_string());
    assert_eq!(t.get_name(), ".x.h");
}

#[test]
fn tree_node_invalid_marker() {
    let t = TreeNode::new_invalid();
    assert!(t.is_invalid());
    assert_eq!(t.get_name(), "invalid");
    let mut u = TreeNode::new("a.h".to_string());
    assert!(!u.is_invalid());
    u.set_name("invalid".to_string());
    assert!(u.is_invalid());
}

#[test]
fn reachable_nodes_follow_edges() {
    // 0 -> 1 -> 2, 3 -> 0
    let g = vec![vec![1], vec![2], vec![], vec![0]];
    assert_eq!(get_reachable_nodes(0, &g), vec![true, true, true, false]);
    assert_eq!(get_reachable_nodes(3, &g), vec![true, true, true, true]);
    assert_eq!(get_reachable_nodes(2, &g), vec![false, false, true, false]);
    // a cycle
    let g = vec![vec![1], vec![0]];
    assert_eq!(get_reachable_nodes(1, &g), vec![true, true]);
}

const LISTING: &str = ". /lib/include/png.h\n.. /lib/include/pngconf.h\n... /usr/include/stdio.h\n... /lib/include/pnglibconf.h\n.. /lib/include/zlib.h\n. /lib/include/extra.hpp\n. /lib/include/notes.txt\nMultiple include guards may be useful for:\n";

#[test]
fn parse_listing_into_tree() {
    let tree = parse_dependency_tree(LISTING, "./png.h", "/lib/include").ok().unwrap();
    assert_eq!(tree.get_name(), "png.h");
    assert_eq!(names(&tree), vec!["/lib/include/png.h", "/lib/include/extra.hpp"]);
    let png = &tree.children[0];
    assert_eq!(names(png), vec!["/lib/include/pngconf.h", "/lib/include/zlib.h"]);
    assert_eq!(names(&png.children[0]), vec!["/lib/include/pnglibconf.h"]);
    // one node per kept line of the listing (five), plus the root
    assert_eq!(count_nodes(&tree), 6);
}

#[test]
fn parse_listing_line_without_space() {
    let out = ". /lib/include/a.h\nbroken\n. /lib/include/b.h\n";
    match parse_dependency_tree(out, "./a.h", "/lib/include") {
        Err(HeaderError::MissingSpace { line }) => assert_eq!(line, "broken"),
        Ok(_) => panic!("expected an error"),
    }
}

#[test]
fn parse_listing_crlf_and_empty() {
    let tree = parse_dependency_tree(". /i/a.h\r\n. /i/b.h", "x.h", "/i").ok().unwrap();
    assert_eq!(names(&tree), vec!["/i/a.h", "/i/b.h"]);
    let tree = parse_dependency_tree("", "x.h", "/i").ok().unwrap();
    assert!(tree.children.is_empty());
}

#[test]
fn clean_root_strips_include_dir() {
    let mut tree = parse_dependency_tree(LISTING, "./png.h", "/lib/include").ok().unwrap();
    assert!(tree.can_clean_root("/lib/include"));
    tree.get_clean_root("/lib/include");
    assert_eq!(names(&tree), vec!["png.h", "extra.hpp"]);
    assert_eq!(names(&tree.children[0]), vec!["pngconf.h", "zlib.h"]);
    let bad = TreeNode::new("/lib/includex.h".to_string());
    assert!(!bad.can_clean_root("/lib/include"));
}

#[test]
fn extract_dependency_of_header() {
    assert_eq!(header_base_name("/lib/include/png.h", "/lib/include"), "./png.h");
    let tree = extract_header_dependency(LISTING, "/lib/include/png.h", "/lib/include").ok().unwrap();
    assert_eq!(tree.get_name(), "png.h");
    assert_eq!(names(&tree), vec!["png.h", "extra.hpp"]);
}

#[test]
fn header_extensions() {
    assert!(is_header_extension("h"));
    assert!(is_header_extension("hpp"));
    assert!(is_header_extension("hxx"));
    assert!(!is_header_extension("c"));
    assert!(!is_header_extension("H"));
}

#[test]
fn lib_and_sys_headers() {
    assert!(is_a_lib_header("png.h"));
    assert!(is_a_lib_header(""));
    assert!(!is_a_lib_header("/usr/include/stdio.h"));
}

fn sys_tree() -> TreeNode {
    // a.h includes /usr/include/stddef.h, b.h and /usr/include/stdint.h;
    // b.h includes /usr/include/inttypes.h.
    let mut a = TreeNode::new("a.h".to_string());
    a.add_child(TreeNode::new("/usr/include/stddef.h".to_string()));
    let mut b = TreeNode::new("b.h".to_string());
    b.add_child(TreeNode::new("/usr/include/inttypes.h".to_string()));
    a.add_child(b);
    a.add_child(TreeNode::new("/usr/include/stdint.h".to_string()));
    a
}

#[test]
fn included_sys_headers_in_work_list_order() {
    let a = sys_tree();
    let sys = get_included_sys_header(&a);
    assert_eq!(
        sys,
        vec!["/usr/include/stddef.h", "/usr/include/stdint.h", "/usr/include/inttypes.h"]
    );
}

#[test]
fn include_sys_headers_of_library() {
    let trees = vec![sys_tree()];
    let sys = get_include_sys_headers(&trees);
    assert_eq!(sys, vec!["stddef.h", "stdint.h", "inttypes.h"]);
    assert_eq!(get_include_sys_headers_str(&sys), "stddef.h\nstdint.h\ninttypes.h");
    assert_eq!(get_include_sys_headers_str(&Vec::new()), "");
}

#[test]
fn includes_gathered_from_every_node_of_a_name() {
    // [A.h{B.h{A.h}}, B.h, A.h]: the first A.h includes B.h, so A.h alone covers both.
    let mut a = TreeNode::new("A.h".to_string());
    let mut b = TreeNode::new("B.h".to_string());
    b.add_child(TreeNode::new("A.h".to_string()));
    a.add_child(b);
    let trees = vec![a, TreeNode::new("B.h".to_string()), TreeNode::new("A.h".to_string())];
    let result = get_independent_headers(&trees).unwrap();
    assert_eq!(result, vec!["A.h"]);
}

#[test]
fn circular_cover_is_least() {
    // X -> Y -> Z -> X and P -> Q -> P, plus R included by Z: two groups, two headers.
    let mut x = TreeNode::new("X.h".to_string());
    let mut y = TreeNode::new("Y.h".to_string());
    let mut z = TreeNode::new("Z.h".to_string());
    z.add_child(TreeNode::new("X.h".to_string()));
    z.add_child(TreeNode::new("R.h".to_string()));
    y.add_child(z);
    x.add_child(y);
    let mut r = TreeNode::new("R.h".to_string());
    r.add_child(TreeNode::new("Z.h".to_string()));
    let mut p = TreeNode::new("P.h".to_string());
    let mut q = TreeNode::new("Q.h".to_string());
    q.add_child(TreeNode::new("P.h".to_string()));
    p.add_child(q);
    let trees = vec![x, r, p];
    let result = get_independent_headers(&trees).unwrap();
    assert_eq!(result.len(), 2);
    assert!(result.iter().any(|h| ["X.h", "Y.h", "Z.h", "R.h"].contains(h)));
    assert!(result.iter().any(|h| ["P.h", "Q.h"].contains(h)));
}

#[test]
fn independent_headers_ignore_tree_order() {
    let mut a = TreeNode::new("a.h".to_string());
    a.add_child(TreeNode::new("c.h".to_string()));
    let mut b = TreeNode::new("b.h".to_string());
    b.add_child(TreeNode::new("c.h".to_string()));
    let mut a2 = TreeNode::new("a.h".to_string());
    a2.add_child(TreeNode::new("c.h".to_string()));
    let mut b2 = TreeNode::new("b.h".to_string());
    b2.add_child(TreeNode::new("c.h".to_string()));
    let one = vec![a, b];
    let two = vec![b2, a2];
    assert_eq!(get_independent_headers(&one).unwrap(), get_independent_headers(&two).unwrap());
    assert_eq!(get_independent_headers(&one).unwrap(), vec!["a.h", "b.h"]);
}
