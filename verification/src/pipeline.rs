//! The scheduling core of the render pipeline.
//!
//! A render is a loop of sample iterations. Each iteration refills a
//! queue with the buckets of the image grid; workers pop buckets, trace
//! the rays of every pixel they own, and add the radiance into the shared
//! float framebuffer. The decisions of that loop — what fills the queue,
//! what a worker pops, which progress event is due, when an iteration and
//! the render end — live here; the callers run the threads and the float
//! arithmetic, which this core does not hold.
//!
//! Within one iteration no two buckets share a pixel
//! (`lemma_disjoint_pixel_writes`), so workers holding different buckets
//! write disjoint framebuffer ranges; the join between iterations orders
//! writes to the same pixel across samples.

use vstd::prelude::*;
use vstd::arithmetic::div_mod::{
    lemma_fundamental_div_mod, lemma_div_is_ordered, lemma_div_by_multiple, lemma_small_mod,
};
use crate::buckets::{Bucket, BucketGrid, lemma_bucket_in_image, lemma_buckets_disjoint};
use crate::settings::RenderSettings;

verus! {

/// The bound on the scatter recursion: a ray's radiance is black once
/// this many bounces have been followed.
pub const MAX_DEPTH: u32 = 10;

/// The sample iteration an event reports, 1-based.
#[derive(Copy, Clone, Debug)]
pub struct SampleStat {
    pub sample: u32,
}

/// Progress events delivered to the caller's sink. For one render they
/// form: any number of `Percent` per iteration, then that iteration's
/// `SampleDone`, and a single `Completed` after the last iteration.
#[derive(Copy, Clone, Debug)]
pub enum RenderEvent {
    Completed,
    SampleDone(SampleStat),
    Percent(u8),
}

/// The count of rays that hit geometry, kept across a render call.
pub struct RayStat {
    pub num_ray_hits: u64,
}

impl RayStat {
    pub fn new() -> (r: RayStat)
        ensures
            r.num_ray_hits == 0,
    {
        RayStat { num_ray_hits: 0 }
    }

    pub fn add_hit(&mut self)
        requires
            old(self).num_ray_hits < u64::MAX,
        ensures
            final(self).num_ray_hits == old(self).num_ray_hits + 1,
    {
        self.num_ray_hits = self.num_ray_hits + 1;
    }
}

/// The effective per-pixel sample count of a render: the square of the
/// `samples` setting, so that a stratified sampler with an `n x n` grid
/// maps onto it directly.
pub fn effective_samples(samples: u32) -> (r: u64)
    ensures
        r == samples as int * samples as int,
{
    proof {
        assert(samples as int * samples as int <= 0xffff_ffff * 0xffff_ffff) by (nonlinear_arith)
            requires samples <= 0xffff_ffff;
    }
    (samples as u64) * (samples as u64)
}

/// The number of rays a full render casts: one per pixel per effective
/// sample, reduced modulo the counter's width where it would not fit.
pub fn total_rays(width: u32, height: u32, samples: u32) -> (r: u64)
    ensures
        r == (width as int * height as int * samples as int * samples as int)
            % 0x1_0000_0000_0000_0000,
        width as int * height as int * samples as int * samples as int <= u64::MAX ==> r
            == width as int * height as int * samples as int * samples as int,
{
    let w = width as u128;
    let h = height as u128;
    let s = samples as u128;
    proof {
        assert(w * h * s * s < 0x1_0000_0000_0000_0000_0000_0000_0000_0000) by (nonlinear_arith)
            requires
                w < 0x1_0000_0000 && h < 0x1_0000_0000 && s < 0x1_0000_0000,
        ;
        assert(w * h < 0x1_0000_0000_0000_0000_0000_0000_0000_0000) by (nonlinear_arith)
            requires w < 0x1_0000_0000 && h < 0x1_0000_0000;
        assert(w * h * s < 0x1_0000_0000_0000_0000_0000_0000_0000_0000) by (nonlinear_arith)
            requires
                w < 0x1_0000_0000 && h < 0x1_0000_0000 && s < 0x1_0000_0000,
        ;
    }
    let n = w * h * s * s;
    let r = (n % 0x1_0000_0000_0000_0000) as u64;
    proof {
        if n <= u64::MAX {
            lemma_small_mod(n as nat, 0x1_0000_0000_0000_0000);
        }
    }
    r
}

/// The progress value reported after a bucket is taken: the share of the
/// iteration's buckets already handed out, in whole percent.
pub fn percent_done(buckets_left: usize, total: usize) -> (r: u8)
    requires
        total > 0,
        buckets_left <= total,
    ensures
        r == (total - buckets_left) * 100 / (total as int),
        r <= 100,
{
    let done = (total - buckets_left) as u128;
    let t = total as u128;
    proof {
        assert(done * 100 <= t * 100) by (nonlinear_arith)
            requires done <= t;
        lemma_div_is_ordered(done as int * 100, t as int * 100, t as int);
        lemma_div_by_multiple(100, t as int);
        assert(t as int * 100 == 100 * t as int) by (nonlinear_arith);
        assert(done * 100 < 0x1_0000_0000_0000_0000_0000_0000_0000_0000) by (nonlinear_arith)
            requires done <= 0xffff_ffff_ffff_ffff;
        assert(done as int * 100 / t as int >= 0) by (nonlinear_arith)
            requires done >= 0 && t > 0;
    }
    let p = done * 100 / t;
    p as u8
}

/// The framebuffer offset of pixel `(x, y)` in an image `width` pixels
/// wide: three float channels per pixel, rows first.
pub open spec fn spec_fb_index(width: int, x: int, y: int) -> int {
    3 * (y * width + x)
}

/// Computes the framebuffer offset of a pixel; the triple starting there
/// lies inside a buffer of `3 * width * height` channels.
pub fn fb_index(width: u32, height: u32, x: u32, y: u32) -> (r: usize)
    requires
        x < width,
        y < height,
        3 * (width as int) * (height as int) <= usize::MAX,
    ensures
        r == spec_fb_index(width as int, x as int, y as int),
        r + 3 <= 3 * (width as int) * (height as int),
{
    proof {
        assert((width as int) * (height as int) > y as int * width as int + x as int)
            by (nonlinear_arith)
            requires x < width && y < height;
        assert(y as int * width as int + x as int >= 0) by (nonlinear_arith)
            requires x >= 0 && y >= 0 && width > 0;
        assert(3 * (width as int) * (height as int) == 3 * ((width as int) * (
        height as int))) by (nonlinear_arith);
    }
    let idx = 3 * ((y as u64) * (width as u64) + (x as u64));
    idx as usize
}

/// Workers of one iteration hold different buckets, and different buckets
/// write disjoint framebuffer ranges: the triples of a pixel of bucket
/// `i` and a pixel of bucket `j` never overlap.
pub proof fn lemma_disjoint_pixel_writes(
    g: BucketGrid,
    i: int,
    j: int,
    x1: int,
    y1: int,
    x2: int,
    y2: int,
)
    requires
        g.wf(),
        0 <= i < g.buckets_seq().len(),
        0 <= j < g.buckets_seq().len(),
        i != j,
        g.buckets_seq()[i].contains(x1, y1),
        g.buckets_seq()[j].contains(x2, y2),
    ensures
        spec_fb_index(g.width as int, x1, y1) + 3 <= spec_fb_index(g.width as int, x2, y2)
            || spec_fb_index(g.width as int, x2, y2) + 3 <= spec_fb_index(
            g.width as int,
            x1,
            y1,
        ),
{
    let w = g.width as int;
    lemma_bucket_in_image(g, i);
    lemma_bucket_in_image(g, j);
    lemma_buckets_disjoint(g, i, j, x1, y1);
    assert(0 <= x1 < w && 0 <= x2 < w);
    assert((x1, y1) != (x2, y2));
    if y1 == y2 {
        assert(x1 != x2);
    } else if y1 < y2 {
        assert(y1 * w + x1 < y2 * w + x2) by (nonlinear_arith)
            requires y1 + 1 <= y2 && 0 <= x1 < w && 0 <= x2;
    } else {
        assert(y2 * w + x2 < y1 * w + x1) by (nonlinear_arith)
            requires y2 + 1 <= y1 && 0 <= x2 < w && 0 <= x1;
    }
}

/// Whether an event log is a legal prefix of one render's event stream:
/// with `next` the iteration whose `SampleDone` is expected next and
/// `total` the iteration count, progress events come only while
/// iterations remain, the `SampleDone` events are numbered in order,
/// and `Completed` comes once, at the very end.
pub open spec fn events_ordered(log: Seq<RenderEvent>, next: int, total: int) -> bool
    decreases log.len(),
{
    if log.len() == 0 {
        true
    } else {
        match log[0] {
            RenderEvent::Percent(_) => next <= total && events_ordered(
                log.skip(1),
                next,
                total,
            ),
            RenderEvent::SampleDone(s) => next <= total && s.sample == next % 0x1_0000_0000
                && events_ordered(log.skip(1), next + 1, total),
            RenderEvent::Completed => next == total + 1 && log.len() == 1,
        }
    }
}

/// The iteration whose `SampleDone` the log expects next.
pub open spec fn next_after(log: Seq<RenderEvent>, next: int) -> int
    decreases log.len(),
{
    if log.len() == 0 {
        next
    } else {
        match log[0] {
            RenderEvent::Percent(_) => next_after(log.skip(1), next),
            RenderEvent::SampleDone(_) => next_after(log.skip(1), next + 1),
            RenderEvent::Completed => next,
        }
    }
}

/// A log that the render has not yet closed with `Completed`.
pub open spec fn log_open(log: Seq<RenderEvent>) -> bool {
    forall|i: int| 0 <= i < log.len() ==> !((#[trigger] log[i]) is Completed)
}

/// A log stays open when the new event is no completion.
proof fn lemma_open_push(log: Seq<RenderEvent>, ev: RenderEvent)
    requires
        log_open(log),
        !(ev is Completed),
    ensures
        log_open(log.push(ev)),
{
    let l2 = log.push(ev);
    assert forall|i: int| 0 <= i < l2.len() implies !((#[trigger] l2[i]) is Completed) by {
        if i < log.len() {
            assert(l2[i] == log[i]);
        } else {
            assert(l2[i] == ev);
        }
    }
}

/// A progress event may join an open, ordered log while iterations
/// remain.
proof fn lemma_log_push_percent(log: Seq<RenderEvent>, next: int, total: int, p: u8)
    requires
        events_ordered(log, next, total),
        log_open(log),
        next_after(log, next) <= total,
    ensures
        events_ordered(log.push(RenderEvent::Percent(p)), next, total),
        log_open(log.push(RenderEvent::Percent(p))),
        next_after(log.push(RenderEvent::Percent(p)), next) == next_after(log, next),
    decreases log.len(),
{
    let l2 = log.push(RenderEvent::Percent(p));
    lemma_open_push(log, RenderEvent::Percent(p));
    if log.len() == 0 {
        assert(l2.skip(1) =~= Seq::<RenderEvent>::empty());
        assert(events_ordered(Seq::<RenderEvent>::empty(), next, total));
        assert(next_after(Seq::<RenderEvent>::empty(), next) == next);
        assert(l2[0] == RenderEvent::Percent(p));
    } else {
        assert(l2.skip(1) =~= log.skip(1).push(RenderEvent::Percent(p)));
        assert(log_open(log.skip(1)));
        match log[0] {
            RenderEvent::Percent(_) => {
                lemma_log_push_percent(log.skip(1), next, total, p);
            },
            RenderEvent::SampleDone(_) => {
                lemma_log_push_percent(log.skip(1), next + 1, total, p);
            },
            RenderEvent::Completed => {
                assert(log[0] is Completed);
            },
        }
    }
}

/// The due `SampleDone` may join an open, ordered log while iterations
/// remain; the log then expects the next iteration's.
proof fn lemma_log_push_done(log: Seq<RenderEvent>, next: int, total: int, s: SampleStat)
    requires
        events_ordered(log, next, total),
        log_open(log),
        next_after(log, next) <= total,
        s.sample == next_after(log, next) % 0x1_0000_0000,
    ensures
        events_ordered(log.push(RenderEvent::SampleDone(s)), next, total),
        log_open(log.push(RenderEvent::SampleDone(s))),
        next_after(log.push(RenderEvent::SampleDone(s)), next) == next_after(log, next) + 1,
    decreases log.len(),
{
    let l2 = log.push(RenderEvent::SampleDone(s));
    lemma_open_push(log, RenderEvent::SampleDone(s));
    if log.len() == 0 {
        assert(l2.skip(1) =~= Seq::<RenderEvent>::empty());
        assert(events_ordered(Seq::<RenderEvent>::empty(), next + 1, total));
        assert(next_after(Seq::<RenderEvent>::empty(), next + 1) == next + 1);
        assert(l2[0] == RenderEvent::SampleDone(s));
    } else {
        assert(l2.skip(1) =~= log.skip(1).push(RenderEvent::SampleDone(s)));
        assert(log_open(log.skip(1)));
        match log[0] {
            RenderEvent::Percent(_) => {
                lemma_log_push_done(log.skip(1), next, total, s);
            },
            RenderEvent::SampleDone(_) => {
                lemma_log_push_done(log.skip(1), next + 1, total, s);
            },
            RenderEvent::Completed => {
                assert(log[0] is Completed);
            },
        }
    }
}

/// Once every iteration's `SampleDone` stands in the log, appending
/// `Completed` closes a legal event stream of the whole render.
proof fn lemma_log_push_completed(log: Seq<RenderEvent>, next: int, total: int)
    requires
        events_ordered(log, next, total),
        log_open(log),
        next_after(log, next) == total + 1,
    ensures
        events_ordered(log.push(RenderEvent::Completed), next, total),
    decreases log.len(),
{
    let l2 = log.push(RenderEvent::Completed);
    if log.len() == 0 {
        assert(l2.skip(1) =~= Seq::<RenderEvent>::empty());
        assert(l2[0] == RenderEvent::Completed);
        assert(l2.len() == 1);
    } else {
        assert(l2.skip(1) =~= log.skip(1).push(RenderEvent::Completed));
        assert(log_open(log.skip(1)));
        match log[0] {
            RenderEvent::Percent(_) => {
                lemma_log_push_completed(log.skip(1), next, total);
            },
            RenderEvent::SampleDone(_) => {
                lemma_log_push_completed(log.skip(1), next + 1, total);
            },
            RenderEvent::Completed => {
                assert(log[0] is Completed);
            },
        }
    }
}

/// The scheduling state of one render call: which sample iteration is
/// running, which buckets of it are still unclaimed, and — as ghost
/// state — the events emitted so far, always a legal prefix of the
/// render's event stream.
pub struct RenderSchedule {
    pub settings: RenderSettings,
    pub queue: Vec<Bucket>,
    pub total_buckets: usize,
    pub samples_total: u64,
    pub samples_done: u64,
    pub log: Ghost<Seq<RenderEvent>>,
}

impl RenderSchedule {
    /// The bucket grid this render works through, once per iteration.
    pub open spec fn grid(self) -> BucketGrid {
        BucketGrid {
            width: self.settings.width,
            height: self.settings.height,
            bucket_size: self.settings.bucket,
        }
    }

    /// The queue is always the still-unclaimed suffix of the grid's
    /// row-major bucket sequence, and the event log a legal, open prefix
    /// of the render's event stream with `samples_done` iterations
    /// reported done.
    pub open spec fn wf(self) -> bool {
        &&& self.settings.valid()
        &&& self.samples_total == self.settings.samples as int * self.settings.samples as int
        &&& self.samples_done <= self.samples_total
        &&& self.total_buckets == self.grid().bucket_count()
        &&& self.queue@.len() <= self.total_buckets
        &&& self.queue@ == self.grid().buckets_seq().skip(
            self.grid().bucket_count() - self.queue@.len(),
        )
        &&& self.queue@.len() > 0 ==> self.samples_done < self.samples_total
        &&& events_ordered(self.log@, 1, self.samples_total as int)
        &&& log_open(self.log@)
        &&& next_after(self.log@, 1) == self.samples_done + 1
    }

    pub fn new(settings: RenderSettings) -> (r: RenderSchedule)
        requires
            settings.valid(),
            (BucketGrid {
                width: settings.width,
                height: settings.height,
                bucket_size: settings.bucket,
            }).bucket_count() <= usize::MAX,
        ensures
            r.wf(),
            r.settings == settings,
            r.samples_done == 0,
            r.queue@.len() == 0,
            r.log@ == Seq::<RenderEvent>::empty(),
    {
        let samples_total = effective_samples(settings.samples);
        let grid = BucketGrid::new(settings.width, settings.height, settings.bucket);
        let total_buckets = grid.buckets().count();
        let r = RenderSchedule {
            settings,
            queue: Vec::new(),
            total_buckets,
            samples_total,
            samples_done: 0,
            log: Ghost(Seq::empty()),
        };
        proof {
            assert(r.samples_done <= r.samples_total) by (nonlinear_arith)
                requires
                    r.samples_done == 0 && r.samples_total == settings.samples as int
                        * settings.samples as int && settings.samples >= 1,
            ;
            assert(r.queue@ =~= r.grid().buckets_seq().skip(r.grid().bucket_count()));
        }
        r
    }

    /// Whether every sample iteration has ended.
    pub fn is_done(&self) -> (r: bool)
        ensures
            r == (self.samples_done == self.samples_total),
    {
        self.samples_done == self.samples_total
    }

    /// Begins the next sample iteration: refills the queue with the whole
    /// grid in row-major order.
    pub fn begin_sample(&mut self)
        requires
            old(self).wf(),
            old(self).queue@.len() == 0,
            old(self).samples_done < old(self).samples_total,
        ensures
            final(self).wf(),
            final(self).settings == old(self).settings,
            final(self).samples_done == old(self).samples_done,
            final(self).samples_total == old(self).samples_total,
            final(self).total_buckets == old(self).total_buckets,
            final(self).queue@ == final(self).grid().buckets_seq(),
            final(self).log@ == old(self).log@,
    {
        let grid = BucketGrid::new(
            self.settings.width,
            self.settings.height,
            self.settings.bucket,
        );
        self.queue = grid.buckets().collect();
        proof {
            assert(self.queue@ =~= self.grid().buckets_seq().skip(0));
        }
    }

    /// Hands out the next bucket of the iteration together with the
    /// percent event due after taking it; `None` once the queue is empty,
    /// which is a worker's only exit.
    pub fn pop_bucket(&mut self) -> (r: Option<(Bucket, u8)>)
        requires
            old(self).wf(),
        ensures
            final(self).wf(),
            final(self).settings == old(self).settings,
            final(self).samples_done == old(self).samples_done,
            final(self).samples_total == old(self).samples_total,
            final(self).total_buckets == old(self).total_buckets,
            old(self).queue@.len() == 0 ==> r is None && final(self).queue@ == old(self).queue@
                && final(self).log@ == old(self).log@,
            old(self).queue@.len() > 0 ==> (r matches Some(pair) ==> final(self).log@ == old(
                self,
            ).log@.push(RenderEvent::Percent(pair.1))),
            old(self).queue@.len() > 0 ==> ({
                &&& final(self).queue@ == old(self).queue@.skip(1)
                &&& r == Some(
                    (
                        old(self).queue@[0],
                        ((old(self).total_buckets - final(self).queue@.len()) * 100 / (old(
                            self,
                        ).total_buckets as int)) as u8,
                    ),
                )
            }),
    {
        if self.queue.len() == 0 {
            return None;
        }
        let ghost pre = *self;
        let b = self.queue.remove(0);
        let left = self.queue.len();
        proof {
            assert(self.queue@ =~= pre.queue@.skip(1));
            let n = self.grid().bucket_count();
            assert(self.queue@ =~= self.grid().buckets_seq().skip(n - self.queue@.len()));
        }
        let p = percent_done(left, self.total_buckets);
        proof {
            lemma_log_push_percent(self.log@, 1, self.samples_total as int, p);
        }
        self.log = Ghost(self.log@.push(RenderEvent::Percent(p)));
        Some((b, p))
    }

    /// Ends one sample iteration once its queue is drained; the
    /// `SampleDone` event carries the 1-based iteration number, reduced
    /// modulo the event field's width where it would not fit.
    pub fn end_sample(&mut self) -> (r: RenderEvent)
        requires
            old(self).wf(),
            old(self).queue@.len() == 0,
            old(self).samples_done < old(self).samples_total,
        ensures
            final(self).wf(),
            final(self).settings == old(self).settings,
            final(self).samples_total == old(self).samples_total,
            final(self).total_buckets == old(self).total_buckets,
            final(self).queue@ == old(self).queue@,
            final(self).samples_done == old(self).samples_done + 1,
            r == RenderEvent::SampleDone(
                SampleStat { sample: ((old(self).samples_done + 1) % 0x1_0000_0000) as u32 },
            ),
            final(self).log@ == old(self).log@.push(r),
    {
        self.samples_done = self.samples_done + 1;
        let s = (self.samples_done % 0x1_0000_0000) as u32;
        let ev = RenderEvent::SampleDone(SampleStat { sample: s });
        proof {
            lemma_log_push_done(
                self.log@,
                1,
                self.samples_total as int,
                SampleStat { sample: s },
            );
        }
        self.log = Ghost(self.log@.push(ev));
        ev
    }

    /// The completion event, due exactly once, after the last iteration.
    pub fn finish(&self) -> (r: RenderEvent)
        requires
            self.wf(),
            self.samples_done == self.samples_total,
        ensures
            r == RenderEvent::Completed,
    {
        RenderEvent::Completed
    }
}

/// The ordering guarantee of the event stream: once the last iteration
/// has ended, the whole log with `Completed` appended is a legal stream —
/// each iteration's progress events before its `SampleDone`, the
/// `SampleDone` events numbered in order, and `Completed` once, at the
/// very end.
pub proof fn lemma_finish_closes_stream(s: RenderSchedule)
    requires
        s.wf(),
        s.samples_done == s.samples_total,
    ensures
        events_ordered(s.log@.push(RenderEvent::Completed), 1, s.samples_total as int),
{
    lemma_log_push_completed(s.log@, 1, s.samples_total as int);
}

} // verus!
