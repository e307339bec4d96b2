use rand::rngs::StdRng;
use rand::Rng;
use rand::SeedableRng;
use rsm_raft::utils::quorum_match_index;

fn random_vec(rng: &mut StdRng) -> Vec<u64> {
    let vec_size = rng.gen_range(2, 20);
    (0..vec_size).map(|_| rng.gen_range(0, 50)).collect()
}

#[test]
fn test_quorum_match_index() {
    let data = vec![1, 2, 3, 4, 5];
    assert_eq!(3, quorum_match_index(&data));
    let data = vec![1, 2, 3, 4];
    assert_eq!(3, quorum_match_index(&data));
    let data = vec![1, 2, 2, 2];
    assert_eq!(2, quorum_match_index(&data));
    let data = vec![1, 1, 2, 4];
    assert_eq!(2, quorum_match_index(&data));
    let data = vec![5, 2, 3, 4, 5];
    assert_eq!(4, quorum_match_index(&data));
}

#[test]
fn test_quorum_match_index_random() {
    let mut rng = StdRng::seed_from_u64(12);

    for _i in 0..1000 {
        let vec = random_vec(&mut rng);
        let mut sorted_vec = vec.clone();
        sorted_vec.sort();

        let median = sorted_vec[vec.len() / 2];
        assert_eq!(
            median,
            quorum_match_index(&vec),
            "Vec: {:?}. Sorted: {:?}",
            vec,
            sorted_vec
        );
    }
}

#[test]
fn quorum_of_one_is_the_element() {
    assert_eq!(9, quorum_match_index(&[9]));
}

#[test]
fn quorum_is_the_smallest_index_a_majority_reached() {
    // three of five have reached 7 or more
    assert_eq!(7, quorum_match_index(&[9, 0, 7, 8, 1]));
    assert_eq!(0, quorum_match_index(&[0, 0, 0, 5]));
}
