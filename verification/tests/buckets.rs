use sprios::buckets::{Bucket, BucketGrid};

#[test]
fn buckets_test_1() {
    assert_eq!(BucketGrid::new(9, 5, 3).buckets().count(), 6);
    assert_eq!(BucketGrid::new(10, 5, 4).buckets().count(), 6);
    assert_eq!(BucketGrid::new(10, 5, 5).buckets().count(), 2);
    assert_eq!(BucketGrid::new(25, 5, 5).buckets().count(), 5);
    assert_eq!(BucketGrid::new(20, 8, 4).buckets().count(), 10);
    assert_eq!(BucketGrid::new(20, 8, 8).buckets().count(), 3);
    assert_eq!(BucketGrid::new(20, 11, 3).buckets().count(), 28);
}

#[test]
fn test_2() {
    assert_eq!(
        Bucket {
            top_left: (0, 0),
            bottom_right: (5, 5),
        }
        .pixels()
        .count(),
        25
    );
    assert_eq!(
        Bucket {
            top_left: (10, 10),
            bottom_right: (15, 15),
        }
        .pixels()
        .count(),
        25
    );
}

#[test]
fn temp_test_1() {
    assert_eq!(BucketGrid::new(9, 5, 3).buckets().count(), 6);
    assert_eq!(BucketGrid::new(10, 5, 4).buckets().count(), 6);
    assert_eq!(BucketGrid::new(10, 5, 5).buckets().count(), 2);
    assert_eq!(BucketGrid::new(25, 5, 5).buckets().count(), 5);
    assert_eq!(BucketGrid::new(20, 8, 4).buckets().count(), 10);
    assert_eq!(BucketGrid::new(20, 8, 8).buckets().count(), 3);
}

#[test]
fn bucket_rows_clip_to_image() {
    let grid = BucketGrid::new(9, 5, 3);
    let buckets = grid.buckets().collect();
    assert_eq!(buckets.len(), 6);
    assert_eq!(buckets[0].top_left, (0, 0));
    assert_eq!(buckets[0].bottom_right, (3, 3));
    assert_eq!(buckets[2].top_left, (6, 0));
    assert_eq!(buckets[2].bottom_right, (9, 3));
    // second row is clipped to the image height
    assert_eq!(buckets[3].top_left, (0, 3));
    assert_eq!(buckets[3].bottom_right, (3, 5));
    assert_eq!(buckets[5].bottom_right, (9, 5));
}

#[test]
fn bucket_columns_clip_to_image() {
    let grid = BucketGrid::new(10, 5, 4);
    let buckets = grid.buckets().collect();
    assert_eq!(buckets.len(), 6);
    // last column of each row is clipped to the image width
    assert_eq!(buckets[2].top_left, (8, 0));
    assert_eq!(buckets[2].bottom_right, (10, 4));
    assert_eq!(buckets[5].top_left, (8, 4));
    assert_eq!(buckets[5].bottom_right, (10, 5));
}

#[test]
fn pixels_are_row_major() {
    let b = Bucket {
        top_left: (1, 1),
        bottom_right: (3, 3),
    };
    let mut it = b.pixels();
    let mut got = Vec::new();
    while let Some(p) = it.next() {
        got.push(p);
    }
    // (y, x) pairs, row by row
    assert_eq!(got, vec![(1, 1), (1, 2), (2, 1), (2, 2)]);
}

#[test]
fn grid_union_covers_every_pixel_once() {
    // concrete check of the partition: every pixel of 20x11 lies in
    // exactly one bucket of the 3-grid
    let grid = BucketGrid::new(20, 11, 3);
    let buckets = grid.buckets().collect();
    for y in 0..11u32 {
        for x in 0..20u32 {
            let mut owners = 0;
            for b in &buckets {
                if b.top_left.0 <= x
                    && x < b.bottom_right.0
                    && b.top_left.1 <= y
                    && y < b.bottom_right.1
                {
                    owners += 1;
                }
            }
            assert_eq!(owners, 1);
        }
    }
}
