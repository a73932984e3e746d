use wechat_query::pages::page;
use wechat_query::sort::stable_sort;
use wechat_query::tables::LatestFirst;

#[test]
fn sorting_is_that_of_std() {
    let mut seed: u64 = 1;
    for n in 0..40 {
        let mut items: Vec<(i64, usize)> = Vec::new();
        for i in 0..n {
            seed = seed.wrapping_mul(6364136223846793005).wrapping_add(1442695040888963407);
            items.push(((seed >> 60) as i64, i));
        }
        let mut want = items.clone();
        want.sort_by_key(|t| std::cmp::Reverse(t.0));
        assert_eq!(stable_sort(items, &LatestFirst), want);
    }
}

#[test]
fn pages_of_a_list() {
    let items = vec![1, 2, 3, 4, 5];
    assert_eq!(page(items.clone(), 0, 2), vec![1, 2]);
    assert_eq!(page(items.clone(), 3, 9), vec![4, 5]);
    assert_eq!(page(items.clone(), 5, 1), Vec::<i32>::new());
    assert_eq!(page(items, usize::MAX, usize::MAX), Vec::<i32>::new());
}
