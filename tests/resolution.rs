use devops_gantt::{
    child_ids, is_feature, ClientError, TreeResolver, WorkItem, WorkItemFields, WorkItemRelation,
    WorkItemRelationAttributes,
};

fn rel(kind: &str, url: &str) -> WorkItemRelation {
    WorkItemRelation {
        attributes: WorkItemRelationAttributes { relation_type: kind.to_string() },
        url: url.to_string(),
    }
}

fn item(id: u32, title: &str, kind: &str, relations: Vec<WorkItemRelation>) -> WorkItem {
    WorkItem {
        id,
        fields: WorkItemFields { title: title.to_string(), work_item_type: kind.to_string() },
        relations,
    }
}

fn child(id: u32) -> WorkItemRelation {
    rel("Child", &format!("https://dev.azure.com/o/_apis/wit/workItems/{}", id))
}

/// Runs a resolution against a fixed set of items, counting bulk requests.
fn resolve(root: WorkItem, store: &[WorkItem], max_depth: u32) -> (Vec<(u32, Option<u32>)>, usize) {
    let mut r = TreeResolver::start(root, max_depth).unwrap();
    let mut calls = 0;
    while let Some(ids) = r.next_request() {
        calls += 1;
        let fetched: Vec<WorkItem> =
            store.iter().filter(|w| ids.contains(&w.id)).cloned().collect();
        r = r.absorb(fetched).unwrap();
    }
    let tree = r.finish();
    (tree.nodes().iter().map(|n| (n.item.id, n.parent)).collect(), calls)
}

#[test]
fn only_child_relations_are_resolved() {
    let w = item(
        1,
        "root",
        "Feature",
        vec![
            rel("Child", "https://x/workitems/11"),
            rel("Parent", "https://x/workitems/22"),
            rel("Child", "https://x/workitems/33"),
        ],
    );
    assert_eq!(child_ids(&w), Ok(vec![11, 33]));
}

#[test]
fn broken_child_url_is_integrity_error() {
    let w = item(1, "root", "Feature", vec![child(5), rel("Child", "https://x/workitems/abc")]);
    assert_eq!(
        child_ids(&w),
        Err(ClientError::DataIntegrity("https://x/workitems/abc".to_string()))
    );
    let ok = item(1, "root", "Feature", vec![rel("Related", "https://x/workitems/abc")]);
    assert_eq!(child_ids(&ok), Ok(vec![]));
}

#[test]
fn feature_check() {
    assert!(is_feature(&item(1, "t", "Feature", vec![])));
    assert!(!is_feature(&item(1, "t", "Task", vec![])));
    assert!(!is_feature(&item(1, "t", "feature", vec![])));
}

#[test]
fn end_to_end_feature_with_one_child() {
    let root = item(
        42,
        "Launch",
        "Feature",
        vec![
            rel("Child", "https://dev.azure.com/o/p/_apis/wit/workItems/101"),
            rel("Related", "https://dev.azure.com/o/p/_apis/wit/workItems/55"),
        ],
    );
    let mut r = TreeResolver::start(root, 1).unwrap();
    assert_eq!(r.next_request(), Some(vec![101]));
    r = r.absorb(vec![item(101, "Design", "Task", vec![])]).unwrap();
    assert_eq!(r.next_request(), None);
    let tree = r.finish();
    assert_eq!(tree.root().id, 42);
    assert_eq!(tree.root().fields.title, "Launch");
    let nodes = tree.nodes();
    assert_eq!(nodes.len(), 2);
    assert_eq!(nodes[1].item.id, 101);
    assert_eq!(nodes[1].item.fields.title, "Design");
    assert_eq!(nodes[1].parent, Some(42));
    assert!(nodes.iter().all(|n| n.item.id != 55));
    assert_eq!(tree.children_of(42), vec![101]);
    assert_eq!(tree.children_of(101), Vec::<u32>::new());
    assert_eq!(tree.children_of(55), Vec::<u32>::new());
}

#[test]
fn chain_takes_one_request_per_level() {
    let a = item(1, "A", "Feature", vec![child(2)]);
    let b = item(2, "B", "Task", vec![child(3)]);
    let c = item(3, "C", "Task", vec![]);
    let (nodes, calls) = resolve(a, &[b, c], 10);
    assert_eq!(calls, 2);
    assert_eq!(nodes, vec![(1, None), (2, Some(1)), (3, Some(2))]);
}

#[test]
fn cycle_ends_and_root_appears_once() {
    let a = item(1, "A", "Feature", vec![child(2)]);
    let b = item(2, "B", "Task", vec![child(3)]);
    let c = item(3, "C", "Task", vec![child(1)]);
    let (nodes, calls) = resolve(a.clone(), &[a, b, c], 10);
    assert_eq!(calls, 2);
    assert_eq!(nodes.len(), 3);
    assert_eq!(nodes.iter().filter(|n| n.0 == 1).count(), 1);
}

#[test]
fn depth_limit_stops_resolution() {
    let a = item(1, "A", "Feature", vec![child(2)]);
    let b = item(2, "B", "Task", vec![child(3)]);
    let c = item(3, "C", "Task", vec![]);
    let (nodes, calls) = resolve(a, &[b, c], 1);
    assert_eq!(calls, 1);
    assert_eq!(nodes, vec![(1, None), (2, Some(1))]);
}

#[test]
fn shared_child_is_fetched_once() {
    let a = item(1, "A", "Feature", vec![child(2), child(3), child(2)]);
    let b = item(2, "B", "Task", vec![child(4)]);
    let c = item(3, "C", "Task", vec![child(4)]);
    let d = item(4, "D", "Task", vec![]);
    let mut r = TreeResolver::start(a, 5).unwrap();
    assert_eq!(r.next_request(), Some(vec![2, 3]));
    r = r.absorb(vec![b, c]).unwrap();
    assert_eq!(r.next_request(), Some(vec![4]));
    r = r.absorb(vec![d.clone(), d]).unwrap();
    assert_eq!(r.next_request(), None);
    let tree = r.finish();
    let got: Vec<(u32, Option<u32>)> = tree.nodes().iter().map(|n| (n.item.id, n.parent)).collect();
    assert_eq!(got, vec![(1, None), (2, Some(1)), (3, Some(1)), (4, Some(2))]);
    assert_eq!(tree.children_of(1), vec![2, 3]);
    assert_eq!(tree.children_of(2), vec![4]);
    assert_eq!(tree.children_of(3), Vec::<u32>::new());
}

#[test]
fn unrequested_items_are_ignored() {
    let a = item(1, "A", "Feature", vec![child(2)]);
    let mut r = TreeResolver::start(a, 3).unwrap();
    r = r.absorb(vec![item(9, "X", "Task", vec![]), item(2, "B", "Task", vec![])]).unwrap();
    let tree = r.finish();
    let got: Vec<u32> = tree.nodes().iter().map(|n| n.item.id).collect();
    assert_eq!(got, vec![1, 2]);
}

#[test]
fn broken_url_in_fetched_item_aborts() {
    let a = item(1, "A", "Feature", vec![child(2)]);
    let r = TreeResolver::start(a, 3).unwrap();
    let bad = item(2, "B", "Task", vec![rel("Child", "https://x/workitems/")]);
    assert!(matches!(r.absorb(vec![bad]), Err(ClientError::DataIntegrity(_))));
    let broken_root = item(1, "A", "Feature", vec![rel("Child", "x/y/z")]);
    assert!(matches!(TreeResolver::start(broken_root, 3), Err(ClientError::DataIntegrity(_))));
}
