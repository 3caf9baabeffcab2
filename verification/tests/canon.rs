use hangman2::solver::canon::collapse_zero_cols;
use hangman2::solver::columns::{
    canonical_for_perm, canonical_hash, canonical_hash_none, canonicalize, exact_column_canon_hash, factorial,
    heuristic_column_canon_hash, merge_identical_columns, relabel, sort_flat_cols,
};
use hangman2::solver::matrix::relabel_flat;
use hangman2::solver::permutation::next_permutation;

#[test]
fn letter_isomorphic() {
    let a = vec![b"ab".to_vec(), b"cd".to_vec()];
    let b = vec![b"ef".to_vec(), b"gh".to_vec()];
    assert_eq!(canonicalize(&a), canonicalize(&b));
}

#[test]
fn position_swap() {
    let a = vec![b"ab".to_vec(), b"cd".to_vec()];
    let b = vec![b"ba".to_vec(), b"dc".to_vec()];
    assert_eq!(canonicalize(&a), canonicalize(&b));
}

#[test]
fn position_and_letter_combined() {
    // {[b,a], [c,a]} and {[a,b], [a,c]}: a column swap and a renaming.
    let a = vec![b"ba".to_vec(), b"ca".to_vec()];
    let b = vec![b"ab".to_vec(), b"ac".to_vec()];
    assert_eq!(canonicalize(&a), canonicalize(&b));
}

#[test]
fn collapse_zero_cols_identifies_all_dead_columns() {
    // 3 rows, 4 columns, column 1 is all zero.
    let buf = vec![1, 0, 2, 3, 1, 0, 4, 5, 6, 0, 7, 8];
    let (out, new_k) = collapse_zero_cols(&buf, 3, 4).unwrap();
    assert_eq!(new_k, 3);
    assert_eq!(out, vec![1, 2, 3, 1, 4, 5, 6, 7, 8]);
}

#[test]
fn collapse_zero_cols_no_dead_returns_none() {
    let buf = vec![1, 2, 3, 4, 5, 6];
    assert!(collapse_zero_cols(&buf, 2, 3).is_none());
}

#[test]
fn collapse_zero_cols_multiple_dead() {
    // 2 rows, 4 columns, columns 0 and 2 are all zero.
    let buf = vec![0, 1, 0, 2, 0, 3, 0, 4];
    let (out, new_k) = collapse_zero_cols(&buf, 2, 4).unwrap();
    assert_eq!(new_k, 2);
    assert_eq!(out, vec![1, 2, 3, 4]);
}

#[test]
fn collapse_zero_cols_all_dead() {
    let buf = vec![0, 0, 0, 0, 0, 0];
    let (out, new_k) = collapse_zero_cols(&buf, 2, 3).unwrap();
    assert_eq!(new_k, 0);
    assert!(out.is_empty());
}

#[test]
fn canonicalize_dead_col_merges_with_k_minus_one() {
    // The dead column tells nothing, so both sets have the same canonical form.
    let with_dead_col = vec![vec![1, 2, 0, 3], vec![1, 2, 0, 4], vec![5, 2, 0, 3]];
    let no_dead_col = vec![vec![1, 2, 3], vec![1, 2, 4], vec![5, 2, 3]];
    assert_eq!(canonical_hash(&with_dead_col), canonical_hash(&no_dead_col));
}

#[test]
fn canonicalize_dead_col_position_invariance() {
    let dead_at_0 = vec![vec![0, 1, 2, 3], vec![0, 1, 2, 4]];
    let dead_at_2 = vec![vec![1, 2, 0, 3], vec![1, 2, 0, 4]];
    assert_eq!(canonical_hash(&dead_at_0), canonical_hash(&dead_at_2));
}

#[test]
fn non_isomorphic() {
    // {ab, ac} share their first letter; {de, fg} do not.
    let a = vec![b"ab".to_vec(), b"ac".to_vec()];
    let b = vec![b"de".to_vec(), b"fg".to_vec()];
    assert_ne!(canonicalize(&a), canonicalize(&b));
}

#[test]
fn with_zeros() {
    let a = vec![vec![0, 1, 2], vec![0, 3, 4]];
    let b = vec![vec![1, 0, 2], vec![3, 0, 4]];
    assert_eq!(canonicalize(&a), canonicalize(&b));
}

#[test]
fn three_col_rotation() {
    let a = vec![b"abc".to_vec(), b"def".to_vec()];
    let b = vec![b"bca".to_vec(), b"efd".to_vec()];
    let c = vec![b"cab".to_vec(), b"fde".to_vec()];
    assert_eq!(canonicalize(&a), canonicalize(&b));
    assert_eq!(canonicalize(&a), canonicalize(&c));
}

#[test]
fn hash_isomorphic() {
    let a = vec![b"ab".to_vec(), b"cd".to_vec()];
    let b = vec![b"ba".to_vec(), b"dc".to_vec()];
    assert_eq!(canonical_hash(&a), canonical_hash(&b));
}

#[test]
fn hash_position_and_letter_exact() {
    let a = vec![b"ba".to_vec(), b"ca".to_vec()];
    let b = vec![b"ab".to_vec(), b"ac".to_vec()];
    assert_eq!(canonicalize(&a), canonicalize(&b));
}

#[test]
fn empty_sigs() {
    assert_eq!(canonicalize(&[]), Vec::<Vec<u8>>::new());
    assert_eq!(canonical_hash(&[]), 0);
}

#[test]
fn single_sig() {
    let a = vec![b"abc".to_vec()];
    let b = vec![b"xyz".to_vec()];
    assert_eq!(canonicalize(&a), canonicalize(&b));
}

#[test]
fn next_perm_exhaustive() {
    let mut p = vec![0, 1, 2];
    let mut count = 1;
    while next_permutation(&mut p) {
        count += 1;
    }
    assert_eq!(count, 6); // 3! = 6
}

#[test]
fn canonicalize_isomorphic() {
    let a = vec![b"ab".to_vec(), b"cd".to_vec()];
    let b = vec![b"ef".to_vec(), b"gh".to_vec()];
    assert_eq!(canonicalize(&a), canonicalize(&b));
}

#[test]
fn canonicalize_position_swap() {
    let a = vec![b"ab".to_vec(), b"cd".to_vec()];
    let b = vec![b"ba".to_vec(), b"dc".to_vec()];
    assert_eq!(canonicalize(&a), canonicalize(&b));
}

#[test]
fn canonicalize_non_isomorphic() {
    let a = vec![b"ab".to_vec(), b"ac".to_vec()];
    let b = vec![b"de".to_vec(), b"fg".to_vec()];
    assert_ne!(canonicalize(&a), canonicalize(&b));
}

#[test]
fn permutations_come_in_increasing_order() {
    let mut p = vec![0, 1, 2];
    assert!(next_permutation(&mut p));
    assert_eq!(p, vec![0, 2, 1]);
    assert!(next_permutation(&mut p));
    assert_eq!(p, vec![1, 0, 2]);
    let mut last = vec![2, 1, 0];
    assert!(!next_permutation(&mut last));
    assert_eq!(last, vec![2, 1, 0]);
    let mut one = vec![5];
    assert!(!next_permutation(&mut one));
}

#[test]
fn relabelling_numbers_letters_by_first_appearance() {
    let mut buf = vec![9, 0, 7, 9, 7, 3];
    relabel_flat(&mut buf);
    assert_eq!(buf, vec![1, 0, 2, 1, 2, 3]);
    assert_eq!(relabel(&[b"zyz".to_vec()], 3), vec![vec![1, 2, 1]]);
}

#[test]
fn identical_columns_are_merged() {
    // Columns 0 and 2 are the same.
    let (out, k) = merge_identical_columns(&vec![1, 2, 1, 3, 4, 3], 2, 3).unwrap();
    assert_eq!((out, k), (vec![1, 2, 3, 4], 2));
    assert!(merge_identical_columns(&vec![1, 2, 3, 4], 2, 2).is_none());
}

#[test]
fn columns_are_sorted() {
    let mut buf = vec![2, 1, 4, 3];
    sort_flat_cols(&mut buf, 2, 2);
    assert_eq!(buf, vec![1, 2, 3, 4]);
}

#[test]
fn canonical_form_under_one_column_order() {
    let form = canonical_for_perm(&[b"ba".to_vec(), b"ca".to_vec()], &vec![1, 0]);
    assert_eq!(form, vec![vec![1, 2], vec![1, 3]]);
}

#[test]
fn exact_column_hash_ignores_column_order() {
    let a = vec![1, 2, 1, 3];
    let b = vec![1, 2, 3, 2];
    assert_eq!(exact_column_canon_hash(&a, 2, 2), exact_column_canon_hash(&b, 2, 2));
    assert_ne!(exact_column_canon_hash(&a, 2, 2), exact_column_canon_hash(&vec![1, 2, 3, 4], 2, 2));
    assert_ne!(heuristic_column_canon_hash(&vec![1, 2, 1, 3], 2, 2), heuristic_column_canon_hash(&vec![1, 2, 3, 4], 2, 2));
}

#[test]
fn plain_hash_ignores_only_the_order_of_the_rows() {
    let a = [b"ab".to_vec(), b"cb".to_vec()];
    assert_eq!(canonical_hash_none(&a), canonical_hash_none(&[b"cb".to_vec(), b"ab".to_vec()]));
    assert_ne!(canonical_hash_none(&a), canonical_hash_none(&[b"xy".to_vec(), b"zy".to_vec()]));
}

#[test]
fn factorials() {
    assert_eq!(factorial(0), 1);
    assert_eq!(factorial(5), 120);
}

#[test]
fn renaming_keeps_the_form() {
    let rows = vec![b"ab".to_vec(), b"bc".to_vec()];
    let renamed = vec![b"zb".to_vec(), b"bc".to_vec()];
    assert_eq!(canonicalize(&rows), vec![vec![1, 2], vec![2, 3]]);
    assert_eq!(canonicalize(&renamed), vec![vec![1, 2], vec![2, 3]]);
    let rows = vec![b"ab".to_vec(), b"cd".to_vec(), b"cb".to_vec()];
    let renamed = vec![b"ma".to_vec(), b"cz".to_vec(), b"ca".to_vec()];
    assert_eq!(canonicalize(&rows), canonicalize(&renamed));
}

#[test]
fn rearranged_sets_have_one_form() {
    let rows: Vec<Vec<u8>> =
        ["crane", "brine", "stone", "atone", "slate"].iter().map(|s| s.as_bytes().to_vec()).collect();
    // Letters backwards through the alphabet, places rotated, words in another order.
    let mut other: Vec<Vec<u8>> =
        rows.iter().map(|r| (0..5).map(|j| b'z' - (r[(j + 2) % 5] - b'a')).collect()).collect();
    other.rotate_left(3);
    assert_eq!(canonicalize(&rows), canonicalize(&other));
    assert_ne!(canonicalize(&rows), canonicalize(&rows[..4]));
}

#[test]
fn many_unrelated_words_have_one_form() {
    // No letter is shared between rows, so every order of the rows looks the same.
    let rows: Vec<Vec<u8>> = (0u8..24).map(|i| (1..=4).map(|j| 4 * i + j).collect()).collect();
    let form = canonicalize(&rows);
    assert_eq!(form, rows);
    let mut other = rows.clone();
    other.reverse();
    assert_eq!(canonicalize(&other), form);
}

#[test]
fn forms_keep_blanks_and_number_labels_in_order() {
    let rows = vec![vec![7, 0, 9], vec![9, 4, 0]];
    let form: Vec<u8> = canonicalize(&rows).concat();
    assert_eq!(form.iter().filter(|&&b| b == 0).count(), 2);
    for (i, &b) in form.iter().enumerate() {
        for smaller in 1..b {
            assert!(form[..i].contains(&smaller));
        }
    }
    assert_eq!(form.iter().max(), Some(&3));
}

#[test]
fn what_follows_the_matrix_stays() {
    let buf = vec![1, 0, 2, 0, 9, 9, 9];
    let (out, new_k) = collapse_zero_cols(&buf, 2, 2).unwrap();
    assert_eq!((out, new_k), (vec![1, 2], 1));
    let mut buf = vec![2, 1, 4, 3, 9, 8];
    sort_flat_cols(&mut buf, 2, 2);
    assert_eq!(buf, vec![1, 2, 3, 4, 9, 8]);
    assert_eq!(merge_identical_columns(&vec![1, 1, 2, 2, 5], 2, 2), Some((vec![1, 2], 1)));
    assert_eq!(
        heuristic_column_canon_hash(&vec![1, 2, 3, 4, 7], 2, 2),
        heuristic_column_canon_hash(&vec![1, 2, 3, 4], 2, 2)
    );
}

#[test]
fn eight_places_are_reordered_too() {
    let rows: Vec<Vec<u8>> =
        ["absolute", "resolute", "dissolve", "absolves", "resolved", "cashmere"].iter().map(|s| s.as_bytes().to_vec()).collect();
    let places = [5, 2, 7, 0, 3, 6, 1, 4];
    let mut other: Vec<Vec<u8>> =
        rows.iter().map(|r| places.iter().map(|&j| b'a' + (r[j] - b'a' + 11) % 26).collect()).collect();
    other.reverse();
    assert_eq!(canonicalize(&rows), canonicalize(&other));
}
