use rawr::comment_list::{classify, Comment, CommentList, TakeStep, Thing, TreeStep, UnitKind};
use rawr::errors::APIError;
use rawr::responses::{CommentData, Edited, More};
use rawr::traits::Content;

fn comment(name: &str, parent: &str) -> Comment {
    Comment::new(CommentData {
        subreddit_id: String::from("t5_2qh1i"),
        banned_by: None,
        removal_reason: None,
        link_id: String::from("t3_X"),
        likes: None,
        saved: false,
        id: name.trim_start_matches("t1_").to_string(),
        gilded: 0,
        archived: false,
        author: String::from("someone"),
        score: 1,
        approved_by: None,
        body: String::from("text"),
        edited: Edited::Flag(false),
        author_flair_css_class: None,
        downs: 0,
        ups: 1,
        body_html: String::from("<p>text</p>"),
        subreddit: String::from("rust"),
        name: name.to_string(),
        score_hidden: false,
        stickied: false,
        created: 0,
        author_flair_text: None,
        created_utc: 0,
        distinguished: None,
        num_reports: None,
        parent_id: parent.to_string(),
    })
}

fn node(name: &str, parent: &str) -> Thing {
    Thing::Comment(comment(name, parent))
}

fn stub(parent: &str, children: &[&str]) -> Thing {
    Thing::More(More {
        count: children.len() as u64,
        parent_id: parent.to_string(),
        children: children.iter().map(|c| c.to_string()).collect(),
    })
}

/// Drains the tree, answering each expansion from `answers` in order.
fn drain(tree: &mut CommentList, mut answers: Vec<Vec<Thing>>) -> Vec<String> {
    let mut out = Vec::new();
    loop {
        match tree.next_step() {
            TreeStep::Comment(c) => out.push(c.name().to_string()),
            TreeStep::Expand(_) => {
                let batch = if answers.is_empty() { Vec::new() } else { answers.remove(0) };
                tree.merge_more_comments(batch);
            }
            TreeStep::End => return out,
        }
    }
}

fn replies(tree: &CommentList, name: &str) -> Vec<String> {
    tree.replies_of(&name.to_string())
}

#[test]
fn expansion_children_drain_after_their_parent() {
    let mut tree = CommentList::new(
        String::from("t3_X"),
        String::from("t3_X"),
        vec![node("t1_A", "t3_X"), stub("t1_A", &["t1_B", "t1_C"])],
    );
    let order = drain(&mut tree, vec![vec![node("t1_B", "t1_A"), node("t1_C", "t1_A")]]);
    assert_eq!(order, vec!["t1_A", "t1_B", "t1_C"]);
    assert_eq!(replies(&tree, "t1_A"), vec!["t1_B", "t1_C"]);
}

#[test]
fn out_of_order_expansion_is_adopted() {
    let mut tree = CommentList::new(
        String::from("t3_X"),
        String::from("t3_X"),
        vec![node("t1_A", "t3_X"), stub("t1_A", &["t1_B", "t1_C"])],
    );
    let order = drain(&mut tree, vec![vec![node("t1_C", "t1_B"), node("t1_B", "t1_A")]]);
    assert_eq!(order, vec!["t1_A", "t1_B", "t1_C"]);
    assert_eq!(replies(&tree, "t1_A"), vec!["t1_B"]);
    assert_eq!(replies(&tree, "t1_B"), vec!["t1_C"]);
}

#[test]
fn orphan_chain_of_depth_three_is_adopted() {
    let mut tree = CommentList::new(String::from("t3_X"), String::from("t3_X"), vec![]);
    tree.merge_more_comments(vec![node("t1_D", "t1_C"), node("t1_C", "t1_B"), node("t1_B", "t1_A")]);
    assert_eq!(drain(&mut tree, vec![]), Vec::<String>::new());
    tree.merge_more_comments(vec![node("t1_A", "t3_X")]);
    assert_eq!(drain(&mut tree, vec![]), vec!["t1_A", "t1_B", "t1_C", "t1_D"]);
    assert_eq!(replies(&tree, "t1_C"), vec!["t1_D"]);
    assert_eq!(replies(&tree, "t3_X"), vec!["t1_A"]);
}

#[test]
fn unresolved_orphans_are_never_yielded() {
    let mut tree = CommentList::new(
        String::from("t3_X"),
        String::from("t3_X"),
        vec![node("t1_A", "t3_X"), stub("t1_A", &["t1_Y"])],
    );
    let order = drain(
        &mut tree,
        vec![vec![node("t1_Z", "t1_MISSING"), node("t1_Y", "t1_Z"), node("t1_B", "t1_A")]],
    );
    assert_eq!(order, vec!["t1_A", "t1_B"]);
    assert_eq!(replies(&tree, "t1_Z"), Vec::<String>::new());
}

#[test]
fn build_queues_every_comment_in_order() {
    let mut tree = CommentList::new(
        String::from("t3_X"),
        String::from("t3_X"),
        vec![node("t1_A", "t3_X"), stub("t3_X", &["t1_C"]), node("t1_B", "t1_elsewhere")],
    );
    assert_eq!(drain(&mut tree, vec![vec![node("t1_C", "t3_X")]]), vec!["t1_A", "t1_B", "t1_C"]);
}

#[test]
fn take_step_expands_until_enough() {
    let mut tree = CommentList::new(
        String::from("t3_X"),
        String::from("t3_X"),
        vec![node("t1_A", "t3_X"), stub("t3_X", &["t1_B", "t1_C", "t1_D"])],
    );
    let mut taken = Vec::new();
    let more = match tree.take_step(&mut taken, 3) {
        TakeStep::Expand(m) => m,
        TakeStep::Done => panic!("expected an expansion"),
    };
    assert_eq!(more.children.len(), 3);
    tree.merge_more_comments(vec![node("t1_B", "t3_X"), node("t1_C", "t3_X"), node("t1_D", "t3_X")]);
    assert!(matches!(tree.take_step(&mut taken, 3), TakeStep::Done));
    let names: Vec<&str> = taken.iter().map(|c| c.name()).collect();
    assert_eq!(names, vec!["t1_A", "t1_B", "t1_C"]);
    assert!(matches!(tree.take_step(&mut taken, 3), TakeStep::Done));
    assert_eq!(taken.len(), 3);
}

#[test]
fn arrival_permutations_attach_the_same_nodes() {
    let batches = [
        vec![node("t1_B", "t1_A"), node("t1_C", "t1_B")],
        vec![node("t1_E", "t1_C")],
        vec![node("t1_D", "t1_A")],
    ];
    let perms: [[usize; 3]; 3] = [[0, 1, 2], [2, 1, 0], [1, 0, 2]];
    let mut seen: Vec<Vec<Vec<String>>> = Vec::new();
    for p in perms.iter() {
        let mut tree = CommentList::new(String::from("t3_X"), String::from("t3_X"), vec![node("t1_A", "t3_X")]);
        for &i in p.iter() {
            let copy: Vec<Thing> = batches[i]
                .iter()
                .map(|t| match t {
                    Thing::Comment(c) => node(c.name(), c.parent()),
                    Thing::More(m) => stub(&m.parent_id, &[]),
                })
                .collect();
            tree.merge_more_comments(copy);
        }
        let mut shape: Vec<Vec<String>> = ["t1_A", "t1_B", "t1_C", "t1_D", "t1_E"]
            .iter()
            .map(|n| {
                let mut r = replies(&tree, n);
                r.sort();
                r
            })
            .collect();
        let mut all = drain(&mut tree, vec![]);
        all.sort();
        shape.push(all);
        seen.push(shape);
    }
    assert_eq!(seen[0], seen[1]);
    assert_eq!(seen[0], seen[2]);
    assert_eq!(seen[0][5], vec!["t1_A", "t1_B", "t1_C", "t1_D", "t1_E"]);
}

#[test]
fn inline_replies_follow_their_parent() {
    let mut tree = CommentList::new(String::from("t3_X"), String::from("t3_X"), vec![
        node("t1_A", "t3_X"),
        node("t1_A1", "t1_A"),
        node("t1_B", "t3_X"),
    ]);
    assert_eq!(drain(&mut tree, vec![]), vec!["t1_A", "t1_A1", "t1_B"]);
}

#[test]
fn stubs_wait_until_queue_is_empty() {
    let mut tree = CommentList::new(
        String::from("t3_X"),
        String::from("t3_X"),
        vec![stub("t3_X", &["t1_B"]), node("t1_A", "t3_X")],
    );
    match tree.next_step() {
        TreeStep::Comment(c) => assert_eq!(c.name(), "t1_A"),
        _ => panic!("expected a comment first"),
    }
    match tree.next_step() {
        TreeStep::Expand(m) => assert_eq!(m.children, vec!["t1_B".to_string()]),
        _ => panic!("expected an expansion"),
    }
    assert!(matches!(tree.next_step(), TreeStep::End));
}

#[test]
fn expansion_body_lists_children() {
    let tree = CommentList::new(String::from("t3_X"), String::from("t3_X"), vec![]);
    let more = More { count: 2, parent_id: String::from("t1_A"), children: vec![String::from("t1_B"), String::from("t1_C")] };
    assert_eq!(tree.expansion_body(&more), "api_type=json&raw_json=1&link_id=t3_X&children=t1_B,t1_C");
}

#[test]
fn take_ready_stops_at_queue_end() {
    let mut tree = CommentList::new(
        String::from("t3_X"),
        String::from("t3_X"),
        vec![node("t1_A", "t3_X"), node("t1_B", "t3_X"), stub("t3_X", &["t1_C"])],
    );
    let first = tree.take_ready(1);
    assert_eq!(first.len(), 1);
    assert_eq!(first[0].name(), "t1_A");
    let rest = tree.take_ready(5);
    assert_eq!(rest.len(), 1);
    assert_eq!(rest[0].name(), "t1_B");
    assert!(matches!(tree.next_step(), TreeStep::Expand(_)));
}

#[test]
fn empty_tree_ends() {
    let mut tree = CommentList::empty();
    assert!(matches!(tree.next_step(), TreeStep::End));
}

#[test]
fn comment_edited_fields() {
    let mut c = comment("t1_A", "t3_X");
    assert!(!c.edited());
    assert_eq!(c.edited_time(), None);
    c.data.edited = Edited::Time(Some(1500));
    assert!(c.edited());
    assert_eq!(c.edited_time(), Some(1500));
    assert_eq!(c.parent(), "t3_X");
}

#[test]
fn unit_kinds() {
    assert!(matches!(classify("t1"), Ok(UnitKind::Comment)));
    assert!(matches!(classify("more"), Ok(UnitKind::More)));
    match classify("t3") {
        Err(APIError::MalformedResponse(k)) => assert_eq!(k, "t3"),
        _ => panic!("expected a malformed batch"),
    }
}

#[test]
fn tree_names() {
    let tree = CommentList::new(String::from("t3_L"), String::from("t1_P"), vec![node("t1_Q", "t1_P")]);
    assert_eq!(tree.link_id(), "t3_L");
    assert_eq!(tree.parent_id(), "t1_P");
    assert_eq!(replies(&tree, "t1_P"), vec!["t1_Q"]);
}
