use vless_collector::shard::{split_configs, DEFAULT_SHARD_SIZE};

fn numbered(n: usize) -> Vec<String> {
    (0..n).map(|i| format!("vless://{}", i)).collect()
}

#[test]
fn five_entries_in_shards_of_two() {
    let entries = numbered(5);
    let shards = split_configs(&entries, 2);
    let sizes: Vec<usize> = shards.iter().map(|s| s.len()).collect();
    assert_eq!(sizes, vec![2, 2, 1]);
    assert_eq!(shards[0], &entries[0..2]);
    assert_eq!(shards[1], &entries[2..4]);
    assert_eq!(shards[2], &entries[4..5]);
}

#[test]
fn no_entries_give_no_shards() {
    let entries: Vec<String> = Vec::new();
    assert!(split_configs(&entries, 1).is_empty());
    assert!(split_configs(&entries, 300).is_empty());
}

#[test]
fn the_shards_in_a_row_are_the_list() {
    for total in 0..20 {
        let entries = numbered(total);
        for size in 1..8 {
            let shards = split_configs(&entries, size);
            assert_eq!(shards.len(), (total + size - 1) / size);
            assert_eq!(shards.concat(), entries);
            let sum: usize = shards.iter().map(|s| s.len()).sum();
            assert_eq!(sum, total);
            for (k, shard) in shards.iter().enumerate() {
                if k + 1 < shards.len() {
                    assert_eq!(shard.len(), size);
                } else {
                    assert!(1 <= shard.len() && shard.len() <= size);
                }
            }
        }
    }
}

#[test]
fn a_full_last_shard() {
    let entries = numbered(6);
    let sizes: Vec<usize> = split_configs(&entries, 3).iter().map(|s| s.len()).collect();
    assert_eq!(sizes, vec![3, 3]);
}

#[test]
fn a_size_above_the_length_gives_one_shard() {
    let entries = numbered(4);
    let shards = split_configs(&entries, 100);
    assert_eq!(shards.len(), 1);
    assert_eq!(shards[0], &entries[..]);
    assert_eq!(split_configs(&entries, usize::MAX).len(), 1);
}

#[test]
fn the_default_size() {
    assert_eq!(DEFAULT_SHARD_SIZE, 300);
    let entries = numbered(601);
    let sizes: Vec<usize> = split_configs(&entries, DEFAULT_SHARD_SIZE).iter().map(|s| s.len()).collect();
    assert_eq!(sizes, vec![300, 300, 1]);
}
