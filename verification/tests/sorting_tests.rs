use sorting_lib::sorting::bogo_sort;
use sorting_lib::sorting::bubble_sort;
use sorting_lib::sorting::gnome_sort;
use sorting_lib::sorting::merge_sort;

/// A cap on shuffle-and-check rounds that a six- or seven-element sequence
/// cannot plausibly exhaust, yet keeps a failing run bounded.
const BOGO_ATTEMPTS: u64 = 50_000_000;

#[test]
fn test_merge_sort() {
    let vect: Vec<i32> = vec![9, 7, 5, 3, 2, 0];
    let expect: Vec<i32> = vec![0, 2, 3, 5, 7, 9];
    let vect2: Vec<i32> = vec![-1, 0, 4, 5, 9, 25];
    let expect2: Vec<i32> = vec![-1, 0, 4, 5, 9, 25];
    let vect3: Vec<i32> = vec![84, 29, 0, 34, 23, 9, 8];
    let expect3: Vec<i32> = vec![0, 8, 9, 23, 29, 34, 84];
    let mut vector = vect.to_vec();
    let mut length = vector.len();
    merge_sort(&mut vector, 0, length - 1);
    assert_eq!(vector, expect);

    let mut vector2 = vect2.to_vec();
    length = vector2.len();
    merge_sort(&mut vector2, 0, length - 1);
    assert_eq!(vector2, expect2);

    let mut vector3 = vect3.to_vec();
    length = vector3.len();
    merge_sort(&mut vector3, 0, length - 1);
    assert_eq!(vector3, expect3);
}

#[test]
fn test_bubble_sort() {
    let vect: Vec<i32> = vec![9, 7, 5, 3, 2, 0];
    let expect: Vec<i32> = vec![0, 2, 3, 5, 7, 9];
    let vect2: Vec<i32> = vec![-1, 0, 4, 5, 9, 25];
    let expect2: Vec<i32> = vec![-1, 0, 4, 5, 9, 25];
    let vect3: Vec<i32> = vec![84, 29, 0, 34, 23, 9, 8];
    let expect3: Vec<i32> = vec![0, 8, 9, 23, 29, 34, 84];

    let mut vector = vect.to_vec();
    bubble_sort(&mut vector);
    assert_eq!(vector, expect);

    let mut vector2 = vect2.to_vec();
    bubble_sort(&mut vector2);
    assert_eq!(vector2, expect2);

    let mut vector3 = vect3.to_vec();
    bubble_sort(&mut vector3);
    assert_eq!(vector3, expect3);
}

#[test]
fn test_gnome_sort() {
    let vect: Vec<i32> = vec![9, 7, 5, 3, 2, 0];
    let expect: Vec<i32> = vec![0, 2, 3, 5, 7, 9];
    let vect2: Vec<i32> = vec![-1, 0, 4, 5, 9, 25];
    let expect2: Vec<i32> = vec![-1, 0, 4, 5, 9, 25];
    let vect3: Vec<i32> = vec![84, 29, 0, 34, 23, 9, 8];
    let expect3: Vec<i32> = vec![0, 8, 9, 23, 29, 34, 84];

    let mut vector = vect.to_vec();
    gnome_sort(&mut vector);
    assert_eq!(vector, expect);

    let mut vector2 = vect2.to_vec();
    gnome_sort(&mut vector2);
    assert_eq!(vector2, expect2);

    let mut vector3 = vect3.to_vec();
    gnome_sort(&mut vector3);
    assert_eq!(vector3, expect3);
}

#[test]
fn test_bogo_sort() {
    let vect: Vec<i32> = vec![9, 7, 5, 3, 2, 0];
    let expect: Vec<i32> = vec![0, 2, 3, 5, 7, 9];
    let vect2: Vec<i32> = vec![-1, 0, 4, 5, 9, 25];
    let expect2: Vec<i32> = vec![-1, 0, 4, 5, 9, 25];
    let vect3: Vec<i32> = vec![84, 29, 0, 34, 23, 9, 8];
    let expect3: Vec<i32> = vec![0, 8, 9, 23, 29, 34, 84];

    let mut vector = vect.to_vec();
    assert!(bogo_sort(&mut vector, BOGO_ATTEMPTS));
    assert_eq!(vector, expect);

    let mut vector2 = vect2.to_vec();
    assert!(bogo_sort(&mut vector2, BOGO_ATTEMPTS));
    assert_eq!(vector2, expect2);

    let mut vector3 = vect3.to_vec();
    assert!(bogo_sort(&mut vector3, BOGO_ATTEMPTS));
    assert_eq!(vector3, expect3);
}

#[test]
fn test_merge_sort_single() {
    let mut vector: Vec<i32> = vec![5];
    merge_sort(&mut vector, 0, 0);
    assert_eq!(vector, vec![5]);
}

#[test]
fn test_merge_sort_duplicates() {
    let mut vector: Vec<i32> = vec![3, 1, 3, 2, 1];
    let length = vector.len();
    merge_sort(&mut vector, 0, length - 1);
    assert_eq!(vector, vec![1, 1, 2, 3, 3]);
}

#[test]
fn test_merge_sort_partial_range() {
    // Only the inclusive range is sorted; everything outside it stays put.
    let mut vector: Vec<i32> = vec![9, 4, 3, 2, 1, 0];
    merge_sort(&mut vector, 1, 4);
    assert_eq!(vector, vec![9, 1, 2, 3, 4, 0]);
}

#[test]
fn test_bubble_sort_empty() {
    let mut vector: Vec<i32> = vec![];
    bubble_sort(&mut vector);
    assert_eq!(vector, Vec::<i32>::new());
}

#[test]
fn test_bubble_sort_single() {
    let mut vector: Vec<i32> = vec![5];
    bubble_sort(&mut vector);
    assert_eq!(vector, vec![5]);
}

#[test]
fn test_bubble_sort_duplicates() {
    let mut vector: Vec<i32> = vec![3, 1, 3, 2, 1];
    bubble_sort(&mut vector);
    assert_eq!(vector, vec![1, 1, 2, 3, 3]);
}

#[test]
fn test_gnome_sort_empty() {
    let mut vector: Vec<i32> = vec![];
    gnome_sort(&mut vector);
    assert_eq!(vector, Vec::<i32>::new());
}

#[test]
fn test_gnome_sort_single() {
    let mut vector: Vec<i32> = vec![5];
    gnome_sort(&mut vector);
    assert_eq!(vector, vec![5]);
}

#[test]
fn test_gnome_sort_duplicates() {
    let mut vector: Vec<i32> = vec![3, 1, 3, 2, 1];
    gnome_sort(&mut vector);
    assert_eq!(vector, vec![1, 1, 2, 3, 3]);
}

#[test]
fn test_bogo_sort_empty() {
    let mut vector: Vec<i32> = vec![];
    assert!(bogo_sort(&mut vector, 1));
    assert_eq!(vector, Vec::<i32>::new());
}

#[test]
fn test_bogo_sort_single() {
    let mut vector: Vec<i32> = vec![5];
    assert!(bogo_sort(&mut vector, 1));
    assert_eq!(vector, vec![5]);
}

#[test]
fn test_bogo_sort_duplicates() {
    let mut vector: Vec<i32> = vec![3, 1, 3, 2, 1];
    assert!(bogo_sort(&mut vector, BOGO_ATTEMPTS));
    assert_eq!(vector, vec![1, 1, 2, 3, 3]);
}

#[test]
fn test_bogo_sort_keeps_values_when_attempts_run_out() {
    // With a single round the shuffle rarely lands on sorted order, but
    // whether or not it does, the same values must still be there.
    let mut vector: Vec<i32> = vec![9, 7, 5, 3, 2, 0];
    let done = bogo_sort(&mut vector, 1);
    let mut values = vector.clone();
    values.sort();
    assert_eq!(values, vec![0, 2, 3, 5, 7, 9]);
    if done {
        assert_eq!(vector, vec![0, 2, 3, 5, 7, 9]);
    }
}

#[test]
fn test_sorted_input_left_unchanged() {
    // Sorting an already-sorted sequence leaves it exactly as it was.
    let sorted_vec: Vec<i32> = vec![-7, -7, 0, 1, 1, 2, 30];
    let mut a = sorted_vec.to_vec();
    let length = a.len();
    merge_sort(&mut a, 0, length - 1);
    assert_eq!(a, sorted_vec);

    let mut b = sorted_vec.to_vec();
    bubble_sort(&mut b);
    assert_eq!(b, sorted_vec);

    let mut c = sorted_vec.to_vec();
    gnome_sort(&mut c);
    assert_eq!(c, sorted_vec);

    let mut d = sorted_vec.to_vec();
    assert!(bogo_sort(&mut d, BOGO_ATTEMPTS));
    assert_eq!(d, sorted_vec);
}

#[test]
fn test_negative_values() {
    let mut vector: Vec<i32> = vec![0, -3, 7, -3, -100, 7];
    bubble_sort(&mut vector);
    assert_eq!(vector, vec![-100, -3, -3, 0, 7, 7]);

    let mut vector2: Vec<i32> = vec![0, -3, 7, -3, -100, 7];
    gnome_sort(&mut vector2);
    assert_eq!(vector2, vec![-100, -3, -3, 0, 7, 7]);

    let mut vector3: Vec<i32> = vec![0, -3, 7, -3, -100, 7];
    let length = vector3.len();
    merge_sort(&mut vector3, 0, length - 1);
    assert_eq!(vector3, vec![-100, -3, -3, 0, 7, 7]);
}
