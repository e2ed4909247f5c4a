use reddit_rs::graph::ThreadGraph;
use reddit_rs::models::{Comment, Reddit, Thread};

fn rec(id: &str, text: &str, parent: Option<&str>) -> Reddit {
    Reddit {
        id: id.to_string(),
        selftext: text.to_string(),
        subreddit: "test".to_string(),
        parent_id: parent.map(|p| p.to_string()),
        permalink: Some(format!("/r/test/{id}")),
    }
}

#[test]
fn test_linear_path_extraction_two_branches() {
    let mut graph = ThreadGraph::new();
    let mut vec_threads: Vec<Reddit> = Vec::new();

    // Build tree: A -> B -> C and A -> D -> E
    graph.add_node("A");
    graph.add_node("B");
    graph.add_node("C");
    graph.add_node("D");
    graph.add_node("E");

    graph.add_edge("A", "B");
    graph.add_edge("B", "C");
    graph.add_edge("A", "D");
    graph.add_edge("D", "E");

    graph.add_threads("A");

    vec_threads.push(Reddit {
        id: "A".to_string(),
        selftext: "Content A".to_string(),
        subreddit: "test".to_string(),
        parent_id: None,
        permalink: Some("/r/test/A".to_string()),
    });
    vec_threads.push(Reddit {
        id: "B".to_string(),
        selftext: "Content B".to_string(),
        subreddit: "test".to_string(),
        parent_id: Some("A".to_string()),
        permalink: Some("/r/test/B".to_string()),
    });
    vec_threads.push(Reddit {
        id: "C".to_string(),
        selftext: "Content C".to_string(),
        subreddit: "test".to_string(),
        parent_id: Some("B".to_string()),
        permalink: Some("/r/test/C".to_string()),
    });
    vec_threads.push(Reddit {
        id: "D".to_string(),
        selftext: "Content D".to_string(),
        subreddit: "test".to_string(),
        parent_id: Some("A".to_string()),
        permalink: Some("/r/test/D".to_string()),
    });
    vec_threads.push(Reddit {
        id: "E".to_string(),
        selftext: "Content E".to_string(),
        subreddit: "test".to_string(),
        parent_id: Some("D".to_string()),
        permalink: Some("/r/test/E".to_string()),
    });

    // Traverse using linear path extraction
    let outputs = graph.tranverse(&vec_threads);

    // Verify: Should have 2 paths (A->B->C and A->D->E)
    assert_eq!(outputs.len(), 2);

    let contents: Vec<_> = outputs.iter().map(|e| e.raw_content.clone()).collect();

    // Verify markdown headers are present
    for content in &contents {
        assert!(content.contains("# Post"), "Missing # Post header");
        assert!(content.contains("## Reply"), "Missing ## Reply header");
        assert!(content.contains("---"), "Missing separator");
    }

    // Path A->B->C
    let path_abc = contents.iter().find(|c| {
        c.contains("Content A")
            && c.contains("Content B")
            && c.contains("Content C")
            && !c.contains("Content D")
            && !c.contains("Content E")
    });
    assert!(path_abc.is_some(), "Path A->B->C not found");

    // Path A->D->E
    let path_ade = contents.iter().find(|c| {
        c.contains("Content A")
            && c.contains("Content D")
            && c.contains("Content E")
            && !c.contains("Content B")
            && !c.contains("Content C")
    });
    assert!(path_ade.is_some(), "Path A->D->E not found");
}

#[test]
fn branches_render_exact_markdown_in_dfs_order() {
    let mut graph = ThreadGraph::new();
    for id in ["A", "B", "C", "D", "E"] {
        graph.add_node(id);
    }
    graph.add_edge("A", "B");
    graph.add_edge("B", "C");
    graph.add_edge("A", "D");
    graph.add_edge("D", "E");
    graph.add_threads("A");
    let data = vec![
        rec("A", "a", None),
        rec("B", "b", Some("A")),
        rec("C", "c", Some("B")),
        rec("D", "d", Some("A")),
        rec("E", "é", Some("D")),
    ];
    let out = graph.tranverse(&data);
    assert_eq!(out.len(), 2);
    // The depth-first visit stacks the children, newest first, so the oldest
    // child's branch comes out first.
    assert_eq!(out[0].raw_content, "# Post\n\na\n\n---\n\n## Reply\n\nb\n\n---\n\n## Reply\n\nc");
    assert_eq!(out[1].raw_content, "# Post\n\na\n\n---\n\n## Reply\n\nd\n\n---\n\n## Reply\n\né");
    // Byte length, not character count.
    assert_eq!(out[1].length, out[1].raw_content.len());
    assert_eq!(out[1].length, 46);
    assert_eq!(out[0].subreddit, "test");
    assert_eq!(out[0].permalink, Some("/r/test/A".to_string()));
    assert_eq!(out[0].created_utc, None);
}

#[test]
fn lone_thread_gives_no_branch() {
    let mut graph = ThreadGraph::new();
    graph.add_threads("T");
    let out = graph.tranverse(&vec![rec("T", "text", None)]);
    assert!(out.is_empty());
}

#[test]
fn add_node_is_idempotent() {
    let mut graph = ThreadGraph::new();
    let a = graph.add_node("A");
    let b = graph.add_node("B");
    let a2 = graph.add_node("A");
    assert_eq!(a, 0);
    assert_eq!(b, 1);
    assert_eq!(a2, 0);
    assert_eq!(graph.node_count(), 2);
    assert!(graph.is_in_map("A"));
    assert!(!graph.is_in_map("C"));
    graph.add_edge("A", "C");
    assert!(graph.is_in_map("C"));
    assert_eq!(graph.node_count(), 3);
    assert_eq!(graph.edge_count(), 1);
}

#[test]
fn cycle_is_not_traversable() {
    let mut graph = ThreadGraph::new();
    graph.add_threads("T");
    graph.add_edge("T", "X");
    graph.add_edge("X", "Y");
    graph.add_edge("Y", "X");
    graph.add_edge("T", "L");
    let data = vec![rec("T", "t", None), rec("X", "x", None), rec("Y", "y", None), rec("L", "l", None)];
    // L is the only leaf and its walk up ends at T, which has no parent;
    // X and Y have replies, so their loop is never walked.
    assert!(graph.try_tranverse(&data).is_some());
    graph.add_edge("Y", "T");
    // Now T's last parent is Y, and Y <-> X loop: the walk up from L never ends.
    assert!(graph.try_tranverse(&data).is_none());
}

#[test]
fn too_few_records_is_refused() {
    let mut graph = ThreadGraph::new();
    graph.add_threads("T");
    graph.add_edge("T", "C");
    assert!(graph.try_tranverse(&vec![rec("T", "t", None)]).is_none());
    assert!(graph.try_tranverse(&vec![rec("T", "t", None), rec("C", "c", Some("T"))]).is_some());
}

fn thread(name: &str, text: &str, n: u64) -> Thread {
    Thread {
        name: name.to_string(),
        selftext: text.to_string(),
        num_comments: n,
        subreddit: "sub".to_string(),
        permalink: Some(format!("/r/sub/{name}")),
    }
}

fn comment(name: &str, body: &str, parent: &str) -> Comment {
    Comment {
        name: name.to_string(),
        body: body.to_string(),
        parent_id: parent.to_string(),
        score: 5,
        ups: 6,
        downs: 1,
        subreddit: "sub".to_string(),
        permalink: None,
    }
}

#[test]
fn process_records_end_to_end() {
    let mut graph = ThreadGraph::new();
    graph.add_thread_record(thread("t3_a", "a long enough post", 2));
    graph.add_thread_record(thread("t3_short", "short", 2));
    graph.add_thread_record(thread("t3_none", "a long enough post", 0));
    assert_eq!(graph.node_count(), 1);
    graph.add_comment_record(comment("t1_x", "first reply", "t3_a"), false);
    graph.add_comment_record(comment("t1_y", "[deleted]", "t3_a"), false);
    graph.add_comment_record(comment("t1_z", "orphan", "t3_missing"), false);
    graph.add_comment_record(comment("t1_w", "second", "t1_x"), true);
    assert_eq!(graph.node_count(), 3);
    let out = graph.traverse().expect("traversable");
    assert_eq!(out.len(), 1);
    assert_eq!(
        out[0].raw_content,
        "# Post\n\na long enough post\n\n---\n\n## Reply\n\nfirst reply\n\n---\n\n## Reply\n\nsecond\n\n{score: 5 Ups: 6 Downs: 1}"
    );
    assert_eq!(out[0].subreddit, "sub");
    assert_eq!(out[0].permalink, Some("/r/sub/t3_a".to_string()));
}

#[test]
fn readme_example_gives_one_line_per_branch() {
    // A (top-level) -> B -> {C, D}, A -> E: branches A-B-C, A-B-D, A-E.
    let mut graph = ThreadGraph::new();
    graph.add_threads("T");
    for (p, c) in [("T", "A"), ("A", "B"), ("B", "C"), ("B", "D"), ("A", "E")] {
        graph.add_edge(p, c);
    }
    let data: Vec<Reddit> = ["T", "A", "B", "C", "D", "E"].iter().map(|id| rec(id, id, None)).collect();
    let out = graph.tranverse(&data);
    let texts: Vec<String> = out.iter().map(|e| e.raw_content.clone()).collect();
    assert_eq!(texts.len(), 3);
    let reply = "\n\n---\n\n## Reply\n\n";
    for tail in [["A", "B", "C"], ["A", "B", "D"], ["A", "E", ""]] {
        let mut expected = "# Post\n\nT".to_string();
        for t in tail.iter().filter(|t| !t.is_empty()) {
            expected.push_str(reply);
            expected.push_str(t);
        }
        assert_eq!(texts.iter().filter(|t| **t == expected).count(), 1, "{expected}");
    }
}

#[test]
fn branches_of_one_order() {
    let mut graph = ThreadGraph::new();
    graph.add_threads("T");
    graph.add_edge("T", "A");
    graph.add_edge("T", "B");
    let data = vec![rec("T", "t", None), rec("A", "a", None), rec("B", "b", None)];
    // Leaves in the given order; the root itself is no branch.
    let out = graph.branches_of_order(&vec![2, 0, 1], &data).unwrap();
    assert_eq!(out.len(), 2);
    assert_eq!(out[0].raw_content, "# Post\n\nt\n\n---\n\n## Reply\n\nb");
    assert_eq!(out[1].raw_content, "# Post\n\nt\n\n---\n\n## Reply\n\na");
    assert!(graph.branches_of_order(&vec![1], &vec![rec("T", "t", None)]).is_none());
}

#[test]
fn each_thread_gives_only_its_own_branches() {
    // Threads A -> B and C -> D: exactly two lines, A's first.
    let mut graph = ThreadGraph::new();
    graph.add_threads("A");
    graph.add_edge("A", "B");
    graph.add_threads("C");
    graph.add_edge("C", "D");
    let data: Vec<Reddit> = ["A", "B", "C", "D"].iter().map(|id| rec(id, id, None)).collect();
    let out = graph.tranverse(&data);
    assert_eq!(out.len(), 2);
    assert_eq!(out[0].raw_content, "# Post\n\nA\n\n---\n\n## Reply\n\nB");
    assert_eq!(out[1].raw_content, "# Post\n\nC\n\n---\n\n## Reply\n\nD");
}

#[test]
fn shared_subtree_is_listed_under_each_thread_that_reaches_it() {
    // Two thread starts, the second a reply in the first thread: its
    // branch is listed once for each start that reaches its leaf.
    let mut graph = ThreadGraph::new();
    graph.add_threads("A");
    graph.add_edge("A", "B");
    graph.add_edge("B", "C");
    graph.add_threads("B");
    let data: Vec<Reddit> = ["A", "B", "C"].iter().map(|id| rec(id, id, None)).collect();
    let out = graph.tranverse(&data);
    let line = "# Post\n\nA\n\n---\n\n## Reply\n\nB\n\n---\n\n## Reply\n\nC";
    assert_eq!(out.len(), 2);
    assert_eq!(out[0].raw_content, line);
    assert_eq!(out[1].raw_content, line);
}
