use strung::config::SortOrder;
use strung::order::{arrange, order_by_key};
use strung::tally::tally;

fn strings(xs: &[&str]) -> Vec<String> {
    xs.iter().map(|s| s.to_string()).collect()
}

#[test]
fn distinct_strings_with_counts() {
    let t = tally(&strings(&["a", "b", "a", "c", "b", "a"]));
    assert_eq!(t.first, vec![0, 1, 3]);
    assert_eq!(t.counts, vec![3, 2, 1]);
}

#[test]
fn counts_add_up_to_the_number_of_strings() {
    let items = strings(&["x", "y", "x", "x", "z", "y", "w", "x"]);
    let t = tally(&items);
    assert_eq!(t.counts.iter().sum::<usize>(), items.len());
    for k in 0..t.first.len() {
        for l in k + 1..t.first.len() {
            assert_ne!(items[t.first[k]], items[t.first[l]]);
        }
    }
}

#[test]
fn empty_list() {
    let t = tally(&Vec::new());
    assert!(t.first.is_empty());
    assert!(t.counts.is_empty());
}

#[test]
fn many_strings() {
    let items: Vec<String> = (0..5000).map(|i| format!("s{}", i % 777)).collect();
    let t = tally(&items);
    assert_eq!(t.first.len(), 777);
    assert_eq!(t.first[5], 5);
    assert_eq!(t.counts[0], 7);
    assert_eq!(t.counts[776], 6);
}

#[test]
fn stable_order_by_key() {
    assert_eq!(order_by_key(&vec![3, 1, 2, 1]), vec![1, 3, 2, 0]);
    assert_eq!(order_by_key(&vec![]), Vec::<usize>::new());
    assert_eq!(order_by_key(&vec![5, 5, 5]), vec![0, 1, 2]);
}

#[test]
fn order_is_a_permutation() {
    let keys: Vec<usize> = (0..1000).map(|i| (i * 7919) % 13).collect();
    let r = order_by_key(&keys);
    let mut seen = r.clone();
    seen.sort();
    assert_eq!(seen, (0..1000).collect::<Vec<usize>>());
    for w in r.windows(2) {
        assert!(keys[w[0]] < keys[w[1]] || (keys[w[0]] == keys[w[1]] && w[0] < w[1]));
    }
}

#[test]
fn arrangement() {
    let lengths = vec![5, 2, 9];
    let counts = vec![1, 3, 1];
    assert_eq!(arrange(false, SortOrder::Length, &lengths, &counts), Some(vec![0, 1, 2]));
    assert_eq!(arrange(true, SortOrder::Length, &lengths, &counts), Some(vec![1, 0, 2]));
    assert_eq!(arrange(true, SortOrder::Count, &lengths, &counts), Some(vec![0, 2, 1]));
    assert_eq!(arrange(true, SortOrder::Probability, &lengths, &counts), None);
}
