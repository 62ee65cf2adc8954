use radicle_surf::nonempty::NonEmpty;
use radicle_surf::vcs::{History, Repo};

#[derive(Debug, Clone, PartialEq)]
struct Artifact {
    id: u32,
    message: &'static str,
}

fn artifact(id: u32, message: &'static str) -> Artifact {
    Artifact { id, message }
}

fn history() -> History<Artifact> {
    History(NonEmpty::from_parts(
        artifact(3, "third"),
        vec![artifact(2, "second"), artifact(1, "first")],
    ))
}

#[test]
fn iter_walks_in_order() {
    let h = history();
    let ids: Vec<u32> = h.iter().into_iter().map(|a| a.id).collect();
    assert_eq!(ids, vec![3, 2, 1]);
}

#[test]
fn find_suffix_starts_at_the_artifact() {
    let h = history();
    let suffix = h.find_suffix(&artifact(2, "second")).unwrap();
    assert_eq!(suffix.0, NonEmpty::from_parts(artifact(2, "second"), vec![artifact(1, "first")]));
    let whole = h.find_suffix(&artifact(3, "third")).unwrap();
    assert_eq!(whole.0, h.0);
    let last = h.find_suffix(&artifact(1, "first")).unwrap();
    assert_eq!(last.0, NonEmpty::new(artifact(1, "first")));
    assert!(h.find_suffix(&artifact(2, "other")).is_none());
}

#[test]
fn find_in_history_by_id() {
    let h = history();
    assert_eq!(h.find_in_history(&2, |a: &Artifact| &a.id), Some(artifact(2, "second")));
    assert_eq!(h.find_in_history(&3, |a: &Artifact| &a.id), Some(artifact(3, "third")));
    assert_eq!(h.find_in_history(&7, |a: &Artifact| &a.id), None);
}

#[test]
fn find_in_histories_keeps_those_holding_the_artifact() {
    let a = history();
    let b = History(NonEmpty::from_parts(artifact(9, "other"), vec![artifact(1, "first")]));
    let c = History(NonEmpty::new(artifact(8, "alone")));
    let found = History::find_in_histories(vec![a.clone(), b.clone(), c.clone()], &1, |x: &Artifact| &x.id);
    let heads: Vec<u32> = found.iter().map(|h| h.0.head.id).collect();
    assert_eq!(heads, vec![3, 9]);
    let found = History::find_in_histories(vec![a, b, c], &8, |x: &Artifact| &x.id);
    let heads: Vec<u32> = found.iter().map(|h| h.0.head.id).collect();
    assert_eq!(heads, vec![8]);
    let repo = Repo(found);
    assert_eq!(repo.0.len(), 1);
}
