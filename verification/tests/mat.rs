use par_mat::error::MatError;
use par_mat::mat::Mat;

fn assert_send<T: Send>() {}

fn assert_sync<T: Sync>() {}

fn create_matrix() -> Mat<i32> {
    let data = vec![vec![1, 2, 3], vec![4, 5, 6], vec![7, 8, 9]];
    Mat::new(data).unwrap()
}

fn create_matrix_from_data(data: Vec<Vec<i32>>) -> Mat<i32> {
    Mat::new(data).unwrap()
}

fn grid(n_rows: usize, n_cols: usize) -> Mat<i32> {
    Mat::new(vec![vec![0; n_cols]; n_rows]).unwrap()
}

#[test]
fn mat_new() {
    let data = vec![vec![1, 2, 3], vec![4, 5, 6], vec![7, 8, 9]];

    let mat = Mat::new(data.clone()).unwrap();

    let mat_data = mat.get_rows();

    assert_eq!(mat_data.len(), data.len());
    for (row, par_row) in data.iter().zip(mat_data) {
        assert_eq!(par_row.get_ref(), row);
    }
}

#[test]
fn send_sync() {
    assert_send::<Mat<i32>>();
    assert_sync::<Mat<i32>>();
}

#[test]
fn mat_new_empty_is_rejected() {
    let mat = Mat::<i32>::new(vec![]);
    assert_eq!(mat.err(), Some(MatError::EmptyMatrix));
}

#[test]
fn mat_new_single_row() {
    let mat: Mat<i32> = Mat::new(vec![vec![1, 2, 3]]).unwrap();
    let data = mat.get_rows();
    assert_eq!(data.len(), 1);
    assert_eq!(data[0].get_ref(), &vec![1, 2, 3]);
}

#[test]
fn mat_new_multiple_rows() {
    let mat: Mat<i32> = Mat::new(vec![vec![1, 2], vec![3, 4]]).unwrap();
    let data = mat.get_rows();
    assert_eq!(data.len(), 2);
    assert_eq!(data[0].get_ref(), &vec![1, 2]);
    assert_eq!(data[1].get_ref(), &vec![3, 4]);
}

#[test]
fn mat_new_rows_without_elements_are_rejected() {
    let one: Vec<Vec<i32>> = vec![vec![]];
    assert_eq!(Mat::new(one).err(), Some(MatError::EmptyRow));
    let three: Vec<Vec<i32>> = vec![vec![], vec![], vec![]];
    assert_eq!(Mat::new(three).err(), Some(MatError::EmptyRow));
}

#[test]
fn mat_new_inconsistent_is_rejected() {
    let mat = Mat::new(vec![vec![1, 2, 3], vec![4, 5]]);
    assert_eq!(mat.err(), Some(MatError::InconsistentRowLength(1)));
}

#[test]
fn mat_new_names_first_offending_row() {
    let late = Mat::new(vec![vec![1, 2], vec![3, 4], vec![5], vec![6, 7, 8]]);
    assert_eq!(late.err(), Some(MatError::InconsistentRowLength(2)));
    let longer = Mat::new(vec![vec![1], vec![2, 3]]);
    assert_eq!(longer.err(), Some(MatError::InconsistentRowLength(1)));
    let first_empty = Mat::new(vec![vec![], vec![1]]);
    assert_eq!(first_empty.err(), Some(MatError::InconsistentRowLength(1)));
    let later_empty = Mat::new(vec![vec![1], vec![]]);
    assert_eq!(later_empty.err(), Some(MatError::InconsistentRowLength(1)));
}

#[test]
fn check_col_consistency_empty_is_rejected() {
    let data: Vec<Vec<i32>> = vec![];
    assert_eq!(
        Mat::check_col_consistency(&data),
        Err(MatError::EmptyMatrix)
    );
}

#[test]
fn check_col_consistency_consistent() {
    let data = vec![vec![1, 2, 3], vec![4, 5, 6], vec![7, 8, 9]];
    assert_eq!(Mat::check_col_consistency(&data), Ok(()));
}

#[test]
fn check_col_consistency_inconsistent_is_rejected() {
    let data = vec![vec![1, 2, 3], vec![4, 5], vec![7, 8, 9]];
    assert_eq!(
        Mat::check_col_consistency(&data),
        Err(MatError::InconsistentRowLength(1))
    );
}

#[test]
fn check_col_consistency_accepts_rows_without_elements() {
    let data: Vec<Vec<i32>> = vec![vec![], vec![]];
    assert_eq!(Mat::check_col_consistency(&data), Ok(()));
}

#[test]
fn get_row() {
    let mat = create_matrix();
    let row = mat.get_row(1).unwrap();
    let expected_row = vec![4, 5, 6];
    assert_eq!(row, &expected_row);
}

#[test]
fn get_row_out_of_range_is_rejected() {
    let mat = create_matrix();
    assert_eq!(mat.get_row(2), Ok(&vec![7, 8, 9]));
    assert_eq!(mat.get_row(3), Err(MatError::IndexOutOfRange));
    assert_eq!(mat.get_row(usize::MAX), Err(MatError::IndexOutOfRange));
}

#[test]
fn get_rows() {
    let mat = create_matrix();
    let rows = mat.get_rows();
    let expected_rows = vec![vec![1, 2, 3], vec![4, 5, 6], vec![7, 8, 9]];
    assert_eq!(rows.len(), expected_rows.len());
    for i in 0..rows.len() {
        assert_eq!(rows[i].get_ref(), &expected_rows[i]);
    }
}

#[test]
fn shape() {
    let mat = create_matrix();
    let shape = mat.shape();
    let expected_shape = (3, 3);
    assert_eq!(shape, expected_shape);
}

#[test]
fn shape_of_rectangles() {
    for n_rows in 1..6usize {
        for n_cols in 1..6usize {
            assert_eq!(grid(n_rows, n_cols).shape(), (n_rows, n_cols));
        }
    }
    assert_eq!(create_matrix_from_data(vec![vec![7]]).shape(), (1, 1));
    assert_eq!(create_matrix_from_data(vec![vec![1, 2, 3, 4]]).shape(), (1, 4));
    assert_eq!(
        create_matrix_from_data(vec![vec![1], vec![2], vec![3]]).shape(),
        (3, 1)
    );
}

#[test]
fn get_elements_per_thread() {
    let data = vec![vec![1, 2, 3], vec![4, 5, 6], vec![7, 8, 9]];
    let mat = create_matrix_from_data(data);

    // Test with 1 thread
    let elements_per_thread = mat.get_elements_per_thread(1);
    assert_eq!(elements_per_thread, vec![9]);

    // Test with 3 threads
    let elements_per_thread = mat.get_elements_per_thread(3);
    assert_eq!(elements_per_thread, vec![3, 3, 3]);

    // Test with 4 threads
    let elements_per_thread = mat.get_elements_per_thread(4);
    assert_eq!(elements_per_thread, vec![3, 2, 2, 2]);

    // Test with 2 threads
    let elements_per_thread = mat.get_elements_per_thread(2);
    assert_eq!(elements_per_thread, vec![5, 4]);

    // Test with 5 threads
    let elements_per_thread = mat.get_elements_per_thread(5);
    assert_eq!(elements_per_thread, vec![2, 2, 2, 2, 1]);

    // Test with 6 threads
    let elements_per_thread = mat.get_elements_per_thread(6);
    assert_eq!(elements_per_thread, vec![2, 2, 2, 1, 1, 1]);

    // Test with 9 threads (equal to number of elements)
    let elements_per_thread = mat.get_elements_per_thread(9);
    assert_eq!(elements_per_thread, vec![1, 1, 1, 1, 1, 1, 1, 1, 1]);

    // Test with 10 threads (more threads than elements)
    let elements_per_thread = mat.get_elements_per_thread(10);
    assert_eq!(elements_per_thread, vec![1, 1, 1, 1, 1, 1, 1, 1, 1, 0]);
}

#[test]
fn get_elements_per_thread_one_element_matrix() {
    let data = vec![vec![1]];
    let mat = create_matrix_from_data(data);

    // Test with 1 thread
    let elements_per_thread = mat.get_elements_per_thread(1);
    assert_eq!(elements_per_thread, vec![1]);

    // Test with 2 threads (more threads than elements)
    let elements_per_thread = mat.get_elements_per_thread(2);
    assert_eq!(elements_per_thread, vec![1, 0]);

    // Test with 3 threads (more threads than elements)
    let elements_per_thread = mat.get_elements_per_thread(3);
    assert_eq!(elements_per_thread, vec![1, 0, 0]);
}

#[test]
fn elements_per_thread_add_up_to_all_elements() {
    for (n_rows, n_cols) in [(1usize, 1usize), (3, 3), (4, 5), (7, 2), (1, 13)] {
        let mat = grid(n_rows, n_cols);
        for n_threads in 1..40usize {
            let counts = mat.get_elements_per_thread(n_threads);
            assert_eq!(counts.len(), n_threads);
            assert_eq!(counts.iter().sum::<usize>(), n_rows * n_cols);
        }
    }
}

#[test]
fn elements_per_thread_are_balanced_and_never_grow() {
    for (n_rows, n_cols) in [(1usize, 1usize), (3, 3), (4, 5), (7, 2), (1, 13)] {
        let mat = grid(n_rows, n_cols);
        for n_threads in 1..40usize {
            let counts = mat.get_elements_per_thread(n_threads);
            let most = *counts.iter().max().unwrap();
            let least = *counts.iter().min().unwrap();
            assert!(most - least <= 1);
            for i in 1..counts.len() {
                assert!(counts[i - 1] >= counts[i]);
            }
        }
    }
}

#[test]
fn elements_per_thread_with_more_threads_than_elements() {
    let mat = grid(2, 3);
    for n_threads in 7..30usize {
        let counts = mat.get_elements_per_thread(n_threads);
        for i in 0..n_threads {
            assert_eq!(counts[i], if i < 6 { 1 } else { 0 });
        }
        assert_eq!(counts.iter().filter(|c| **c == 1).count(), 6);
        assert_eq!(counts.iter().filter(|c| **c == 0).count(), n_threads - 6);
    }
}

#[test]
fn elements_per_thread_quotient_and_remainder() {
    let mat = grid(4, 5);
    assert_eq!(mat.get_elements_per_thread(3), vec![7, 7, 6]);
    assert_eq!(mat.get_elements_per_thread(6), vec![4, 4, 3, 3, 3, 3]);
    assert_eq!(mat.get_elements_per_thread(20), vec![1; 20]);
    assert_eq!(mat.get_elements_per_thread(7), vec![3, 3, 3, 3, 3, 3, 2]);
}

#[test]
fn get_batch_linear_indices_single_thread() {
    let data = vec![vec![1, 2, 3], vec![4, 5, 6]];
    let mat = create_matrix_from_data(data);
    let elements_per_thread = vec![6];
    let result = mat.get_batch_linear_indices(elements_per_thread);
    assert_eq!(result, vec![(0, 5)]);
}

#[test]
fn get_batch_linear_indices_even_distribution() {
    let data = vec![vec![1, 2, 3], vec![4, 5, 6]];
    let mat = create_matrix_from_data(data);
    let elements_per_thread = vec![3, 3];
    let result = mat.get_batch_linear_indices(elements_per_thread);
    assert_eq!(result, vec![(0, 2), (3, 5)]);
}

#[test]
fn get_batch_linear_indices_uneven_distribution() {
    let data = vec![vec![1, 2, 3], vec![4, 5, 6], vec![7, 8, 9]];
    let mat = create_matrix_from_data(data);
    let elements_per_thread = vec![4, 4, 1];
    let result = mat.get_batch_linear_indices(elements_per_thread);
    assert_eq!(result, vec![(0, 3), (4, 7), (8, 8)]);
}

#[test]
fn get_batch_linear_indices_more_threads_than_elements() {
    let data = vec![vec![1, 2, 3]];
    let mat = create_matrix_from_data(data);
    let elements_per_thread = vec![1, 1, 1, 0];
    let result = mat.get_batch_linear_indices(elements_per_thread);
    assert_eq!(result, vec![(0, 0), (1, 1), (2, 2), (2, 2)]);
}

#[test]
fn batch_linear_indices_of_three_by_three_for_three_threads() {
    let mat = create_matrix();
    let elements_per_thread = mat.get_elements_per_thread(3);
    assert_eq!(elements_per_thread, vec![3, 3, 3]);
    let result = mat.get_batch_linear_indices(elements_per_thread);
    assert_eq!(result, vec![(0, 2), (3, 5), (6, 8)]);
}

#[test]
fn batch_linear_indices_idle_worker_between_busy_ones() {
    let mat = create_matrix();
    let result = mat.get_batch_linear_indices(vec![2, 0, 0, 3, 0, 4]);
    assert_eq!(
        result,
        vec![(0, 1), (0, 1), (0, 1), (2, 4), (2, 4), (5, 8)]
    );
}

#[test]
fn batch_linear_indices_are_contiguous_and_cover_everything() {
    for (n_rows, n_cols) in [(1usize, 1usize), (3, 3), (4, 5), (7, 2), (1, 13)] {
        let mat = grid(n_rows, n_cols);
        let total = n_rows * n_cols;
        for n_threads in 1..40usize {
            let counts = mat.get_elements_per_thread(n_threads);
            let ranges = mat.get_batch_linear_indices(counts.clone());
            assert_eq!(ranges.len(), n_threads);
            let mut seen = vec![0usize; total];
            for i in 0..n_threads {
                let (start, end) = ranges[i];
                if counts[i] > 0 {
                    assert_eq!(end - start + 1, counts[i]);
                    if i > 0 {
                        assert_eq!(start, ranges[i - 1].1 + 1);
                    }
                    for x in start..=end {
                        seen[x] += 1;
                    }
                } else {
                    assert_eq!(ranges[i], ranges[i - 1]);
                }
            }
            assert_eq!(ranges[0].0, 0);
            assert_eq!(ranges[n_threads - 1].1, total - 1);
            assert_eq!(seen, vec![1usize; total]);
        }
    }
}

#[test]
fn test_get_batch_indices_single_thread() {
    let data = vec![vec![1, 2, 3], vec![4, 5, 6], vec![7, 8, 9]];
    let mat = Mat::new(data).unwrap();
    let indices = mat.get_batch_indices(1);
    assert_eq!(indices, vec![((0, 0), (2, 2))]);
}

#[test]
fn test_get_batch_indices_multiple_threads() {
    let data = vec![vec![1, 2], vec![3, 4], vec![5, 6], vec![7, 8]];
    let mat = Mat::new(data).unwrap();
    let indices = mat.get_batch_indices(2);
    assert_eq!(indices, vec![((0, 0), (1, 1)), ((2, 0), (3, 1))]);
}

#[test]
fn test_get_batch_indices_more_threads_than_elements() {
    let data = vec![vec![1, 2], vec![3, 4]];
    let mat = Mat::new(data).unwrap();
    let indices = mat.get_batch_indices(5);
    assert_eq!(
        indices,
        vec![
            ((0, 0), (0, 0)),
            ((0, 1), (0, 1)),
            ((1, 0), (1, 0)),
            ((1, 1), (1, 1)),
            ((1, 1), (1, 1))
        ]
    );
}

#[test]
fn batch_indices_split_rows_unevenly() {
    let mat = create_matrix();
    assert_eq!(
        mat.get_batch_indices(2),
        vec![((0, 0), (1, 1)), ((1, 2), (2, 2))]
    );
    assert_eq!(
        mat.get_batch_indices(4),
        vec![
            ((0, 0), (0, 2)),
            ((1, 0), (1, 1)),
            ((1, 2), (2, 0)),
            ((2, 1), (2, 2))
        ]
    );
}

#[test]
fn batch_indices_are_the_cells_of_the_linear_ends() {
    for (n_rows, n_cols) in [(1usize, 1usize), (3, 3), (4, 5), (7, 2), (1, 13)] {
        let mat = grid(n_rows, n_cols);
        for n_threads in 1..40usize {
            let ranges = mat.get_batch_linear_indices(mat.get_elements_per_thread(n_threads));
            let batches = mat.get_batch_indices(n_threads);
            assert_eq!(batches.len(), n_threads);
            for i in 0..n_threads {
                let (start, end) = ranges[i];
                assert_eq!(batches[i].0, (start / n_cols, start % n_cols));
                assert_eq!(batches[i].1, (end / n_cols, end % n_cols));
                assert!(batches[i].1 .0 < n_rows);
                assert!(batches[i].1 .1 < n_cols);
            }
        }
    }
}
