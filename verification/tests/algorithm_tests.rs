use classic_algos::euclid::{gcd, inverse_mod, lcm, totient};
use classic_algos::exponent::{fast_exp, fast_exp_mod};
use classic_algos::factorize::{find_factors, find_factors_sieve, multiply_vector};
use classic_algos::hanoi::move_disk;
use classic_algos::knight::find_tour;
use classic_algos::primality::{find_prime, is_probably_prime, random_exponent};
use classic_algos::prng::{make_random_vec, Prng};
use classic_algos::queens::{board_is_a_solution, board_is_legal, place_queens_4, series_is_legal};
use classic_algos::searching::{binary_search, linear_search};
use classic_algos::sequences::{factorial, fibonacci_on_the_fly};
use classic_algos::sieve::{sieve_of_eratosthenes, sieve_to_primes};
use classic_algos::sorting::{counting_sort, partition, quicksort, Customer};

#[test]
fn prng_stream_is_deterministic() {
    let mut prng = Prng { seed: 1 };
    assert_eq!(prng.next_u32(), 1103527590);
    assert_eq!(prng.next_u32(), 377401575);
    assert_eq!(prng.next_u32(), 662824084);
    let mut prng = Prng { seed: 42 };
    let draw = prng.next_i32(0, 10);
    assert_eq!(draw, 5);
    let mut prng = Prng { seed: 42 };
    let wide = prng.next_i64(-100, 100);
    assert!(-100 <= wide && wide < 100);
    let vec = make_random_vec(25, 7);
    assert_eq!(vec.len(), 25);
    assert!(vec.iter().all(|&x| 0 <= x && x < 7));
    let mut seeded = Prng::new();
    seeded.randomize();
    assert!(seeded.next_u32() < 0x8000_0000);
}

#[test]
fn searches_find_and_miss() {
    let vec = vec![2, 3, 5, 5, 8, 13];
    assert_eq!(linear_search(&vec, 5), (2, 3));
    assert_eq!(linear_search(&vec, 4), (-1, 6));
    let (idx, tests) = binary_search(&vec, 8);
    assert_eq!(idx, 4);
    assert!(tests >= 1 && tests <= 6);
    let (idx, _) = binary_search(&vec, 4);
    assert_eq!(idx, -1);
    let (idx, _) = binary_search(&Vec::new(), 4);
    assert_eq!(idx, -1);
}

#[test]
fn quicksort_sorts_a_permutation() {
    let mut vec = vec![5, -1, 3, 3, 9, 0, -7, 12, 4];
    let mut expected = vec.clone();
    expected.sort();
    quicksort(&mut vec);
    assert_eq!(vec, expected);
    let mut single = vec![1];
    quicksort(&mut single);
    assert_eq!(single, vec![1]);
    let mut pair = vec![9, 2, 9];
    let p = partition(&mut pair, 0, 3);
    assert_eq!(pair[p], 9);
    assert!(pair[..p].iter().all(|&x| x <= 9));
}

#[test]
fn counting_sort_orders_customers() {
    let vec = vec![
        Customer { id: String::from("C0"), num_purchases: 4 },
        Customer { id: String::from("C1"), num_purchases: 1 },
        Customer { id: String::from("C2"), num_purchases: 4 },
        Customer { id: String::from("C3"), num_purchases: 0 },
    ];
    let sorted = counting_sort(&vec, 5);
    assert_eq!(sorted.len(), 4);
    let purchases: Vec<i32> = sorted.iter().map(|c| c.num_purchases).collect();
    assert_eq!(purchases, vec![0, 1, 4, 4]);
    assert_eq!(sorted[0].id, "C3");
    assert_eq!(sorted[1].id, "C1");
    assert_eq!(sorted[2].id, "C0");
    assert_eq!(sorted[3].id, "C2");
}

#[test]
fn euclid_family() {
    assert_eq!(gcd(48, 18), 6);
    assert_eq!(gcd(-48, 18), 6);
    assert_eq!(gcd(0, 7), 7);
    assert_eq!(lcm(4, 6), 12);
    assert_eq!(lcm(-4, 6), 12);
    assert_eq!(totient(5, 7), 12);
    assert_eq!(inverse_mod(3, 7), 5);
    assert_eq!(inverse_mod(7, 40), 23);
}

#[test]
fn exponentiation_exact_values() {
    assert_eq!(fast_exp(2, 10), 1024);
    assert_eq!(fast_exp(3, 0), 1);
    assert_eq!(fast_exp(0, 5), 0);
    assert_eq!(fast_exp(1, 60), 1);
    assert_eq!(fast_exp_mod(2, 10, 1000), 24);
    assert_eq!(fast_exp_mod(5, 3, 13), 8);
    assert_eq!(fast_exp_mod(7, 0, 11), 1);
    assert_eq!(fast_exp_mod(123456, 789, 1_000_003), fast_exp_mod(123456, 789, 1_000_003));
}

#[test]
fn primality_helpers() {
    let mut prng = Prng { seed: 9 };
    // Fermat's test never rejects an actual prime.
    assert!(is_probably_prime(101, 10, &mut prng));
    assert!(is_probably_prime(7919, 10, &mut prng));
    // And composites with small witnesses are caught quickly.
    assert!(!is_probably_prime(100, 20, &mut prng));
    let p = find_prime(&mut prng, 100, 1000, 10);
    assert!(100 <= p && p <= 1000 && p % 2 == 1);
    let e = random_exponent(&mut prng, 20);
    assert!(3 <= e && e < 20);
    assert_eq!(gcd(e, 20), 1);
}

#[test]
fn sieve_marks_exactly_the_primes() {
    let sieve = sieve_of_eratosthenes(30);
    let primes = sieve_to_primes(&sieve);
    assert_eq!(primes, vec![2, 3, 5, 7, 11, 13, 17, 19, 23, 29]);
    assert!(sieve[2] && sieve[29]);
    assert!(!sieve[0] && !sieve[1] && !sieve[25] && !sieve[27]);
    let tiny = sieve_of_eratosthenes(1);
    assert_eq!(tiny.len(), 2);
    assert!(sieve_to_primes(&tiny).is_empty());
}

#[test]
fn factorisation_multiplies_back() {
    assert_eq!(find_factors(84), vec![2, 2, 3, 7]);
    assert_eq!(find_factors(1), Vec::<i64>::new());
    assert_eq!(find_factors(97), vec![97]);
    assert_eq!(multiply_vector(&vec![2, 2, 3, 7]), 84);
    assert_eq!(multiply_vector(&Vec::new()), 1);
    let primes = sieve_to_primes(&sieve_of_eratosthenes(100));
    assert_eq!(find_factors_sieve(&primes, 84), vec![2, 2, 3, 7]);
    assert_eq!(multiply_vector(&find_factors_sieve(&primes, 9991)), 9991);
}

#[test]
fn factorial_and_fibonacci() {
    assert_eq!(factorial(0), 1);
    assert_eq!(factorial(5), 120);
    assert_eq!(factorial(20), 2432902008176640000);
    let mut memo = vec![0, 1];
    assert_eq!(fibonacci_on_the_fly(&mut memo, 10), 55);
    assert_eq!(fibonacci_on_the_fly(&mut memo, 15), 610);
    assert_eq!(fibonacci_on_the_fly(&mut memo, 3), 2);
    assert_eq!(memo.len(), 16);
}

#[test]
fn hanoi_moves_the_top_disk() {
    // Three posts of three slots: all disks start on the first post.
    let mut posts = vec![vec![1, 2, 3], vec![0, 0, 0], vec![0, 0, 0]];
    move_disk(&mut posts, 0, 1);
    assert_eq!(posts, vec![vec![0, 2, 3], vec![0, 0, 1], vec![0, 0, 0]]);
    move_disk(&mut posts, 0, 2);
    assert_eq!(posts, vec![vec![0, 0, 3], vec![0, 0, 1], vec![0, 0, 2]]);
    move_disk(&mut posts, 1, 2);
    assert_eq!(posts, vec![vec![0, 0, 3], vec![0, 0, 0], vec![0, 1, 2]]);
}

#[test]
fn queens_on_small_boards() {
    let empty: Vec<Vec<char>> = vec![vec!['.'; 4]; 4];
    assert!(board_is_legal(&empty));
    assert!(!board_is_a_solution(&empty));
    let mut board = empty.clone();
    assert!(place_queens_4(&mut board, 0));
    assert!(board_is_a_solution(&board));
    let queens: usize = board.iter().flatten().filter(|&&c| c == 'Q').count();
    assert_eq!(queens, 4);

    let mut clashing: Vec<Vec<char>> = vec![vec!['.'; 3]; 3];
    clashing[0][0] = 'Q';
    clashing[0][2] = 'Q';
    assert!(!series_is_legal(&clashing, 0, 0, 0, 1));
    assert!(!board_is_legal(&clashing));

    // No solution fits a 3-by-3 board; the board comes back untouched.
    let mut three: Vec<Vec<char>> = vec![vec!['.'; 3]; 3];
    assert!(!place_queens_4(&mut three, 0));
    assert!(three.iter().flatten().all(|&c| c == '.'));
}

#[test]
fn knight_tour_backtracks_cleanly() {
    let offsets: Vec<(i32, i32)> = vec![
        (-2, -1),
        (-1, -2),
        (2, -1),
        (1, -2),
        (-2, 1),
        (-1, 2),
        (2, 1),
        (1, 2),
    ];
    // A lone square is already a full tour.
    let mut tiny = vec![vec![0i64]];
    let mut calls: u64 = 0;
    assert!(find_tour(&mut tiny, &offsets, 0, 0, 1, &mut calls));

    // No knight's tour covers a 4-by-4 board: the search fails and restores
    // the board exactly.
    let mut board: Vec<Vec<i64>> = vec![vec![-1; 4]; 4];
    board[0][0] = 0;
    let mut calls: u64 = 0;
    assert!(!find_tour(&mut board, &offsets, 0, 0, 1, &mut calls));
    assert!(calls > 0);
    for r in 0..4 {
        for c in 0..4 {
            if r == 0 && c == 0 {
                assert_eq!(board[r][c], 0);
            } else {
                assert_eq!(board[r][c], -1);
            }
        }
    }
}
