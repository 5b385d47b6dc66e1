use tui_incremental::controlflow::{has_unique_keys, walk, EachContainer};

fn filled(keys: &[u64]) -> EachContainer<String> {
    let mut c = EachContainer::new();
    let outcome = c.update(&keys.to_vec());
    assert!(outcome.stale.is_empty());
    for i in outcome.missing {
        c.adopt(keys[i], format!("entry-{}", keys[i]));
    }
    c
}

#[test]
fn first_pass_builds_every_entry() {
    let mut c: EachContainer<String> = EachContainer::new();
    let outcome = c.update(&vec![5, 7, 9]);
    assert_eq!(outcome.missing, vec![0, 1, 2]);
    assert!(outcome.stale.is_empty());
    assert_eq!(c.len(), 0);
}

#[test]
fn unchanged_data_keeps_every_entry() {
    let mut c = filled(&[1, 2, 3]);
    let outcome = c.update(&vec![1, 2, 3]);
    assert!(outcome.missing.is_empty());
    assert!(outcome.stale.is_empty());
    assert_eq!(c.len(), 3);
    assert_eq!(c.get(2), Some(&"entry-2".to_string()));
}

#[test]
fn dropped_key_disposes_only_its_entry() {
    let mut c = filled(&[1, 2, 3]);
    let outcome = c.update(&vec![1, 3]);
    assert!(outcome.missing.is_empty());
    assert_eq!(outcome.stale, vec![(2, "entry-2".to_string())]);
    assert_eq!(c.len(), 2);
    assert_eq!(c.get(2), None);
    assert_eq!(c.get(1), Some(&"entry-1".to_string()));
    assert_eq!(c.get(3), Some(&"entry-3".to_string()));
}

#[test]
fn new_keys_are_reported_missing_in_order() {
    let mut c = filled(&[1, 2]);
    let outcome = c.update(&vec![4, 2, 6]);
    assert_eq!(outcome.missing, vec![0, 2]);
    assert_eq!(outcome.stale, vec![(1, "entry-1".to_string())]);
}

#[test]
fn sizer_stop_leaves_later_items_out() {
    let items: Vec<u32> = vec![10, 20, 30, 40];
    let laid = walk(
        &items,
        &|t: &u32, _i: usize| *t as u64,
        &|prev: Option<&u32>, _t: &u32, _i: usize| {
            let y = match prev {
                Some(p) => *p + 1,
                None => 0,
            };
            if y < 3 {
                Some(y)
            } else {
                None
            }
        },
    );
    assert_eq!(laid, vec![(10, 0), (20, 1), (30, 2)]);

    let mut c = filled(&[10, 20, 30, 40]);
    let keys: Vec<u64> = laid.iter().map(|e| e.0).collect();
    let outcome = c.update(&keys);
    assert_eq!(outcome.stale, vec![(40, "entry-40".to_string())]);
    assert_eq!(c.len(), 3);
}

#[test]
fn sizer_refusing_the_first_item_lays_out_nothing() {
    let items: Vec<u32> = vec![1, 2];
    let laid = walk(
        &items,
        &|t: &u32, _i: usize| *t as u64,
        &|_prev: Option<&u32>, _t: &u32, _i: usize| None::<u32>,
    );
    assert!(laid.is_empty());
}

#[test]
fn duplicate_keys_are_detected() {
    assert!(has_unique_keys(&vec![1, 2, 3]));
    assert!(!has_unique_keys(&vec![1, 2, 1]));
    assert!(has_unique_keys(&vec![]));
}
