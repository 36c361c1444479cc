use roomdag::auth_set::AuthSet;

#[test]
fn distinct_ids_are_kept_as_they_are() {
    let set = AuthSet::from_distinct(vec!["$c", "$a", "$b"]);
    assert_eq!(set.into_iter().collect::<Vec<_>>(), vec!["$c", "$a", "$b"]);
}

#[test]
fn default_set_is_empty() {
    let set: AuthSet<String> = AuthSet::default();
    assert_eq!(set.into_iter().count(), 0);
}

#[test]
fn repeated_ids_stay_once() {
    let ids: Vec<String> = ["$b", "$a", "$b", "$c", "$a"].iter().map(|id| id.to_string()).collect();
    let set = AuthSet::from_iter(ids);
    assert_eq!(set.into_iter().collect::<Vec<_>>(), vec!["$a", "$b", "$c"]);
}

#[test]
fn repeated_numbers_stay_once() {
    let set = AuthSet::from_iter(vec![3u64, 1, 3, 2, 1]);
    assert_eq!(set.clone().into_iter().collect::<Vec<_>>(), vec![1, 2, 3]);
    assert_eq!(set.into_iter().count(), 3);
}
