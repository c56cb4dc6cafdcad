use orbit::collision::plan_merges;

fn table(n: usize, touching: &[(usize, usize)]) -> Vec<Vec<bool>> {
    let mut t = vec![vec![false; n]; n];
    for &(i, j) in touching {
        t[i][j] = true;
        t[j][i] = true;
    }
    t
}

#[test]
fn no_contacts_keep_every_body() {
    let plan = plan_merges(&table(4, &[]));
    assert_eq!(plan.pairs, vec![]);
    assert_eq!(plan.untouched, vec![0, 1, 2, 3]);
}

#[test]
fn empty_collection_gives_an_empty_plan() {
    let plan = plan_merges(&Vec::new());
    assert!(plan.pairs.is_empty());
    assert!(plan.untouched.is_empty());
}

#[test]
fn single_contact_merges_one_pair() {
    let plan = plan_merges(&table(3, &[(0, 2)]));
    assert_eq!(plan.pairs, vec![(0, 2)]);
    assert_eq!(plan.untouched, vec![1]);
}

#[test]
fn body_touching_two_others_merges_once() {
    // Body 1 touches both 0 and 2: the first match wins and body 2 stays.
    let plan = plan_merges(&table(3, &[(0, 1), (1, 2)]));
    assert_eq!(plan.pairs, vec![(0, 1)]);
    assert_eq!(plan.untouched, vec![2]);
}

#[test]
fn first_later_free_partner_is_chosen() {
    // Body 0 touches 1 and 2; body 2 also touches 3.
    let plan = plan_merges(&table(4, &[(0, 1), (0, 2), (2, 3)]));
    assert_eq!(plan.pairs, vec![(0, 1), (2, 3)]);
    assert_eq!(plan.untouched, vec![]);
}

#[test]
fn taken_body_is_skipped_for_later_pairs() {
    // 0 and 2 merge; 1 touches only 2, which is taken, so 1 stays.
    let plan = plan_merges(&table(3, &[(0, 2), (1, 2)]));
    assert_eq!(plan.pairs, vec![(0, 2)]);
    assert_eq!(plan.untouched, vec![1]);
}

#[test]
fn all_touching_pairs_up_in_order() {
    let all: Vec<(usize, usize)> = (0..5).flat_map(|i| (i + 1..5).map(move |j| (i, j))).collect();
    let plan = plan_merges(&table(5, &all));
    assert_eq!(plan.pairs, vec![(0, 1), (2, 3)]);
    assert_eq!(plan.untouched, vec![4]);
}

#[test]
fn every_body_is_accounted_for_once() {
    let plan = plan_merges(&table(7, &[(0, 3), (1, 3), (2, 5), (4, 5), (5, 6)]));
    assert_eq!(plan.pairs, vec![(0, 3), (2, 5)]);
    assert_eq!(plan.untouched, vec![1, 4, 6]);
    let mut seen = vec![0; 7];
    for &(i, j) in &plan.pairs {
        seen[i] += 1;
        seen[j] += 1;
    }
    for &k in &plan.untouched {
        seen[k] += 1;
    }
    assert_eq!(seen, vec![1; 7]);
}

#[test]
fn self_contact_on_the_diagonal_is_ignored() {
    let mut t = table(2, &[]);
    t[0][0] = true;
    t[1][1] = true;
    let plan = plan_merges(&t);
    assert_eq!(plan.pairs, vec![]);
    assert_eq!(plan.untouched, vec![0, 1]);
}
