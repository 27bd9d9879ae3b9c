use raytracer::render::{
    assemble, next_depth, progress_due, render_rows, slice_bounds, slice_rows, thread_order, to_channel,
    CHANNEL_MAX, DEPTH_MAX,
};

#[test]
fn depth_cutoff_is_fifty() {
    assert_eq!(DEPTH_MAX, 50);
    assert_eq!(next_depth(0), Some(1));
    assert_eq!(next_depth(49), Some(50));
    assert_eq!(next_depth(50), None);
    assert_eq!(next_depth(51), None);
}

#[test]
fn path_stops_after_fifty_bounces() {
    let mut depth = 0;
    let mut bounces = 0;
    while let Some(d) = next_depth(depth) {
        depth = d;
        bounces += 1;
    }
    assert_eq!(bounces, 50);
}

#[test]
fn channel_is_clamped() {
    assert_eq!(CHANNEL_MAX, 255);
    assert_eq!(to_channel(-7), 0);
    assert_eq!(to_channel(0), 0);
    assert_eq!(to_channel(128), 128);
    assert_eq!(to_channel(255), 255);
    assert_eq!(to_channel(256), 255);
    assert_eq!(to_channel(i32::MAX), 255);
}

#[test]
fn slices_split_rows_evenly() {
    assert_eq!(slice_bounds(0, 4, 10), (0, 2));
    assert_eq!(slice_bounds(1, 4, 10), (2, 4));
    assert_eq!(slice_bounds(2, 4, 10), (4, 6));
    assert_eq!(slice_bounds(3, 4, 10), (6, 10));
}

#[test]
fn last_slice_takes_all_rows_when_threads_outnumber_rows() {
    assert_eq!(slice_bounds(0, 3, 2), (0, 0));
    assert_eq!(slice_bounds(1, 3, 2), (0, 0));
    assert_eq!(slice_bounds(2, 3, 2), (0, 2));
}

#[test]
fn single_thread_renders_whole_image() {
    assert_eq!(slice_bounds(0, 1, 7), (0, 7));
    assert_eq!(render_rows(7, 1), vec![6, 5, 4, 3, 2, 1, 0]);
}

#[test]
fn rows_of_a_slice_go_top_down() {
    assert_eq!(slice_rows(2, 5), vec![4, 3, 2]);
    assert_eq!(slice_rows(3, 3), Vec::<i32>::new());
}

#[test]
fn threads_start_from_top_slice() {
    assert_eq!(thread_order(3), vec![2, 1, 0]);
    assert_eq!(thread_order(0), Vec::<i32>::new());
}

#[test]
fn slices_joined_in_thread_order_cover_rows_top_down() {
    assert_eq!(render_rows(5, 2), vec![4, 3, 2, 1, 0]);
    assert_eq!(render_rows(10, 4), (0..10).rev().collect::<Vec<i32>>());
    assert_eq!(render_rows(2, 3), vec![1, 0]);
    assert_eq!(render_rows(0, 2), Vec::<i32>::new());
}

#[test]
fn assemble_concatenates_in_order() {
    assert_eq!(assemble(vec![vec![1, 2, 3], vec![], vec![4, 5, 6]]), vec![1, 2, 3, 4, 5, 6]);
    assert_eq!(assemble(vec![]), Vec::<i32>::new());
}

#[test]
fn assembled_slices_match_row_major_buffer() {
    let (nx, ny, nthreads) = (3, 5, 2);
    let mut bufs = Vec::new();
    for nth in thread_order(nthreads) {
        let (start, end) = slice_bounds(nth, nthreads, ny);
        let mut buf = Vec::new();
        for j in slice_rows(start, end) {
            for i in 0..nx {
                buf.push(j * 100 + i);
            }
        }
        bufs.push(buf);
    }
    let mut expected = Vec::new();
    for j in (0..ny).rev() {
        for i in 0..nx {
            expected.push(j * 100 + i);
        }
    }
    assert_eq!(assemble(bufs), expected);
}

#[test]
fn progress_is_reported_about_ten_times_per_slice() {
    assert!(progress_due(0, 100));
    assert!(progress_due(30, 100));
    assert!(!progress_due(31, 100));
    assert_eq!((0..100).filter(|&j| progress_due(j, 100)).count(), 10);
    // Short slices report every row
    assert!(progress_due(7, 5));
    assert!(progress_due(3, 0));
    assert!(progress_due(5, 19));
}
