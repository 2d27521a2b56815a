use sprios::pipeline::{
    effective_samples, fb_index, percent_done, total_rays, RayStat, RenderEvent, RenderSchedule,
};
use sprios::settings::SettingsBuilder;

#[test]
fn percent_counts_handed_out_buckets() {
    assert_eq!(percent_done(4, 4), 0);
    assert_eq!(percent_done(3, 4), 25);
    assert_eq!(percent_done(0, 4), 100);
    assert_eq!(percent_done(2, 3), 33);
    assert_eq!(percent_done(1, 3), 66);
}

#[test]
fn fb_index_is_row_major_times_three() {
    assert_eq!(fb_index(300, 200, 0, 0), 0);
    assert_eq!(fb_index(300, 200, 2, 1), 3 * (300 + 2));
    assert_eq!(fb_index(300, 200, 299, 199), 3 * (199 * 300 + 299));
}

#[test]
fn ray_totals() {
    assert_eq!(effective_samples(10), 100);
    assert_eq!(total_rays(300, 200, 10), 6_000_000);
    assert_eq!(total_rays(1, 1, 1), 1);
}

#[test]
fn ray_stat_counts() {
    let mut s = RayStat::new();
    s.add_hit();
    s.add_hit();
    assert_eq!(s.num_ray_hits, 2);
}

#[test]
fn schedule_runs_iterations_in_order() {
    let settings = SettingsBuilder::new().size(9, Some(5)).bucket(3).samples(2).build();
    let mut sched = RenderSchedule::new(settings);
    assert!(!sched.is_done());
    assert_eq!(sched.total_buckets, 6);
    // effective samples: 2 squared
    for expected_sample in 1..=4u32 {
        sched.begin_sample();
        let mut popped = 0;
        let mut last_percent = 0;
        while let Some((b, p)) = sched.pop_bucket() {
            popped += 1;
            assert!(b.top_left.0 < b.bottom_right.0);
            assert!(p >= last_percent);
            last_percent = p;
        }
        assert_eq!(popped, 6);
        assert_eq!(last_percent, 100);
        let ev = sched.end_sample();
        assert!(matches!(ev, RenderEvent::SampleDone(s) if s.sample == expected_sample));
    }
    assert!(sched.is_done());
    assert!(matches!(sched.finish(), RenderEvent::Completed));
}

#[test]
fn queue_hands_out_the_whole_grid_row_major() {
    let settings = SettingsBuilder::new().size(10, Some(5)).bucket(4).samples(1).build();
    let mut sched = RenderSchedule::new(settings);
    sched.begin_sample();
    let mut tops = Vec::new();
    while let Some((b, _)) = sched.pop_bucket() {
        tops.push(b.top_left);
    }
    assert_eq!(tops, vec![(0, 0), (4, 0), (8, 0), (0, 4), (4, 4), (8, 4)]);
}
