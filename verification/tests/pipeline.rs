use comic_reader::decode::decode_page;
use comic_reader::error::ErrorKind;
use comic_reader::layout::{DualKey, Layout, ReadingDirection};
use comic_reader::page::DecodedPage;
use comic_reader::pipeline::{
    DrawableState, JobOutcome, PageState, Pipeline, PipelineConfig, ViewState,
};
use comic_reader::scheduler::{Job, RequestOutcome};
use comic_reader::texture::TextureKey;
use comic_reader::zoom::ZoomLadder;
use image::{ImageFormat, Rgba, RgbaImage};
use std::io::Cursor;

fn png_bytes(width: u32, height: u32, colour: [u8; 4]) -> Vec<u8> {
    let img = RgbaImage::from_pixel(width, height, Rgba(colour));
    let mut out = Cursor::new(Vec::new());
    img.write_to(&mut out, ImageFormat::Png).unwrap();
    out.into_inner()
}

fn config() -> PipelineConfig {
    PipelineConfig {
        max_pages: 32,
        max_bytes: 64 * 1024 * 1024,
        max_composites: 4,
        max_textures: 16,
        prefetch_ahead: 4,
        keep_window: 16,
        ladder: ZoomLadder::quarters(),
        upload_attempts: 3,
    }
}

fn view(page: usize, layout: Layout, zoom: u32) -> ViewState {
    ViewState { page, layout, zoom, direction: ReadingDirection::LeftToRight }
}

/// What the owner of a pipeline does around it: it holds the archive,
/// runs the decodes and keeps the textures.
struct Rig {
    pipeline: Pipeline,
    archive: Vec<Vec<u8>>,
    next_texture: u64,
    live: Vec<u64>,
    uploads: usize,
}

impl Rig {
    fn open(archive: Vec<Vec<u8>>, config: PipelineConfig, standalone: Vec<usize>) -> Rig {
        let mut pipeline = Pipeline::new(config);
        let released = pipeline.notify_archive_changed(archive.len(), standalone);
        assert!(released.is_empty());
        Rig { pipeline, archive, next_texture: 1, live: Vec::new(), uploads: 0 }
    }

    fn release(&mut self, ids: Vec<u64>) {
        for id in ids {
            let at = self.live.iter().position(|l| *l == id).expect("released twice");
            self.live.remove(at);
        }
    }

    fn decode(&self, job: Job) -> Result<DecodedPage, ErrorKind> {
        match self.archive.get(job.ticket.page) {
            Some(bytes) => decode_page(bytes, 10_000)
                .map(|d| d.page)
                .map_err(ErrorKind::from_decode),
            None => Err(ErrorKind::OutOfRange),
        }
    }

    fn run_one_job(&mut self) -> Option<JobOutcome> {
        let job = self.pipeline.next_job()?;
        let result = self.decode(job);
        Some(self.pipeline.finish_job(job, result))
    }

    fn run_jobs(&mut self) -> usize {
        let mut n = 0;
        while self.run_one_job().is_some() {
            n += 1;
        }
        n
    }

    /// One frame: ask, release, upload what is missing.
    fn frame(&mut self, view: ViewState) -> DrawableState {
        let answer = self.pipeline.drawables_for(view);
        self.release(answer.release);
        if let Some(key) = answer.upload {
            assert!(self.pipeline.upload_source(key).is_some());
            let id = self.next_texture;
            self.next_texture += 1;
            self.uploads += 1;
            self.live.push(id);
            let released = self.pipeline.texture_uploaded(key, id);
            self.release(released);
        }
        assert_eq!(self.live.len(), self.pipeline.texture_count());
        answer.primary
    }

    /// Frames and decodes until the answer no longer changes.
    fn settle(&mut self, view: ViewState) -> DrawableState {
        let _ = self.frame(view);
        self.run_jobs();
        let _ = self.frame(view);
        self.frame(view)
    }
}

fn small_archive(pages: usize) -> Vec<Vec<u8>> {
    (0..pages).map(|i| png_bytes(20, 30, [i as u8, 0, 0, 255])).collect()
}

#[test]
fn first_frame_is_pending_then_ready_at_native_size() {
    let page = png_bytes(1000, 1500, [9, 9, 9, 255]);
    let mut rig = Rig::open(vec![page; 10], config(), Vec::new());
    let v = view(0, Layout::Single, 1000);
    assert_eq!(rig.frame(v), DrawableState::Pending);
    // the visible page is decoded first
    assert_eq!(rig.run_one_job(), Some(JobOutcome::Cached(0)));
    assert_eq!(rig.frame(v), DrawableState::Pending);
    match rig.frame(v) {
        DrawableState::Ready(texture) => {
            assert_eq!((texture.width, texture.height), (1000, 1500));
        }
        other => panic!("not ready: {:?}", other),
    }
    assert_eq!(rig.uploads, 1);
}

#[test]
fn a_view_beyond_the_archive_is_out_of_range() {
    let mut rig = Rig::open(small_archive(3), config(), Vec::new());
    assert_eq!(
        rig.frame(view(3, Layout::Single, 1000)),
        DrawableState::Failed(ErrorKind::OutOfRange)
    );
    assert!(rig.pipeline.next_job().is_none());
    let mut empty = Pipeline::new(config());
    let answer = empty.drawables_for(view(0, Layout::Dual, 1000));
    assert_eq!(answer.primary, DrawableState::Failed(ErrorKind::OutOfRange));
    assert!(answer.hints.requested.is_empty());
}

#[test]
fn pages_around_the_view_are_prefetched() {
    let mut rig = Rig::open(small_archive(20), config(), Vec::new());
    let answer = rig.pipeline.drawables_for(view(5, Layout::Single, 1000));
    assert_eq!(answer.primary, DrawableState::Pending);
    assert_eq!(answer.hints.requested, vec![6, 7, 8, 9, 4, 3]);
    assert!(answer.hints.cancelled.is_empty());
    // the visible page first, then the prefetches in the order asked
    let order: Vec<usize> =
        (0..7).map(|_| rig.pipeline.next_job().unwrap().ticket.page).collect();
    assert_eq!(order, vec![5, 6, 7, 8, 9, 4, 3]);
    assert!(rig.pipeline.next_job().is_none());
}

#[test]
fn prefetch_stops_at_the_ends_of_the_archive() {
    let mut rig = Rig::open(small_archive(3), config(), Vec::new());
    let first = rig.pipeline.drawables_for(view(0, Layout::Single, 1000));
    assert_eq!(first.hints.requested, vec![1, 2]);
    rig.run_jobs();
    assert_eq!(rig.pipeline.cached_pages(), 3);
    let again = rig.pipeline.drawables_for(view(2, Layout::Single, 1000));
    assert!(again.hints.requested.is_empty());
}

#[test]
fn prefetches_far_from_the_view_are_cancelled() {
    let mut rig = Rig::open(small_archive(100), config(), Vec::new());
    let _ = rig.pipeline.drawables_for(view(10, Layout::Single, 1000));
    let far = rig.pipeline.drawables_for(view(60, Layout::Single, 1000));
    // what was prefetched around page 10 is dropped; page 10 itself was visible
    assert_eq!(far.hints.cancelled, vec![11, 12, 13, 14, 9, 8]);
    assert_eq!(rig.pipeline.page_state(10), PageState::Pending);
    let order: Vec<usize> =
        (0..8).map(|_| rig.pipeline.next_job().unwrap().ticket.page).collect();
    assert_eq!(order, vec![10, 60, 61, 62, 63, 64, 59, 58]);
}

#[test]
fn every_page_is_ready_but_the_corrupt_one() {
    let mut archive = small_archive(6);
    archive[3] = b"this is no image".to_vec();
    let mut rig = Rig::open(archive, config(), Vec::new());
    for page in 0..6usize {
        let state = rig.settle(view(page, Layout::Single, 1000));
        if page == 3 {
            assert_eq!(state, DrawableState::Failed(ErrorKind::FormatError));
        } else {
            assert!(matches!(state, DrawableState::Ready(_)));
        }
    }
    // the failure is kept and nothing is tried again by itself
    assert_eq!(rig.pipeline.page_state(3), PageState::Failed(ErrorKind::FormatError));
    assert_eq!(rig.frame(view(3, Layout::Single, 1000)), DrawableState::Failed(ErrorKind::FormatError));
    assert!(rig.pipeline.next_job().is_none());
    // in a spread, the failed page fails the spread
    assert_eq!(
        rig.settle(view(2, Layout::Dual, 1000)),
        DrawableState::Failed(ErrorKind::FormatError)
    );
}

#[test]
fn small_zoom_changes_keep_one_texture() {
    let mut rig = Rig::open(small_archive(1), config(), Vec::new());
    let first = rig.settle(view(0, Layout::Single, 1000));
    assert_eq!(rig.pipeline.texture_count(), 1);
    assert_eq!(rig.frame(view(0, Layout::Single, 1030)), first);
    assert_eq!(rig.pipeline.texture_count(), 1);
    assert_eq!(rig.frame(view(0, Layout::Single, 1080)), first);
    assert_eq!(rig.pipeline.texture_count(), 1);
    assert_eq!(rig.uploads, 1);
    // the next rung asks for a new texture and releases the old one
    assert_eq!(rig.frame(view(0, Layout::Single, 1130)), DrawableState::Pending);
    assert_eq!(rig.pipeline.texture_count(), 1);
    assert_eq!(rig.uploads, 2);
    assert_eq!(rig.live, vec![2]);
}

#[test]
fn zoom_change_notice_releases_other_rungs() {
    let mut rig = Rig::open(small_archive(1), config(), Vec::new());
    let _ = rig.settle(view(0, Layout::Single, 1000));
    assert!(rig.pipeline.notify_zoom_changed(1040).is_empty());
    assert_eq!(rig.pipeline.notify_zoom_changed(2000), vec![1]);
    assert_eq!(rig.pipeline.texture_count(), 0);
}

#[test]
fn changing_the_layout_and_back_leaves_one_texture() {
    let mut rig = Rig::open(small_archive(4), config(), Vec::new());
    assert!(matches!(rig.settle(view(0, Layout::Single, 1000)), DrawableState::Ready(_)));
    assert_eq!(rig.pipeline.texture_count(), 1);
    let _ = rig.frame(view(0, Layout::Dual, 1000));
    assert!(rig.pipeline.texture_count() <= 2);
    assert!(matches!(rig.frame(view(0, Layout::Dual, 1000)), DrawableState::Ready(_)));
    assert!(rig.pipeline.texture_count() <= 2);
    let _ = rig.frame(view(0, Layout::Single, 1000));
    assert!(rig.pipeline.texture_count() <= 2);
    assert!(matches!(rig.frame(view(0, Layout::Single, 1000)), DrawableState::Ready(_)));
    assert_eq!(rig.pipeline.texture_count(), 1);
}

#[test]
fn layout_change_notice_releases_the_other_layout() {
    let mut rig = Rig::open(small_archive(4), config(), Vec::new());
    let _ = rig.settle(view(0, Layout::Single, 1000));
    assert!(rig.pipeline.notify_layout_changed(Layout::Single).is_empty());
    assert_eq!(rig.pipeline.notify_layout_changed(Layout::Dual), vec![1]);
    assert_eq!(rig.pipeline.texture_count(), 0);
}

#[test]
fn a_spread_is_composed_of_both_pages() {
    let archive = vec![png_bytes(20, 30, [255, 0, 0, 255]), png_bytes(20, 30, [0, 0, 255, 255])];
    let mut rig = Rig::open(archive, config(), Vec::new());
    match rig.settle(view(0, Layout::Dual, 1000)) {
        DrawableState::Ready(texture) => assert_eq!((texture.width, texture.height), (40, 30)),
        other => panic!("not ready: {:?}", other),
    }
    let key = TextureKey::Dual { pages: DualKey { left: 0, right: Some(1) }, bucket: 4 };
    let spread = rig.pipeline.upload_source(key).unwrap();
    assert_eq!((spread.width(), spread.height()), (40, 30));
    assert_eq!(&spread.pixels()[0..4], &[255, 0, 0, 255]);
    assert_eq!(&spread.pixels()[4 * 20..4 * 20 + 4], &[0, 0, 255, 255]);
}

#[test]
fn reading_right_to_left_puts_the_second_page_on_the_left() {
    let archive = vec![png_bytes(20, 30, [255, 0, 0, 255]), png_bytes(20, 30, [0, 0, 255, 255])];
    let mut rig = Rig::open(archive, config(), Vec::new());
    let rtl = ViewState {
        page: 0,
        layout: Layout::Dual,
        zoom: 1000,
        direction: ReadingDirection::RightToLeft,
    };
    assert!(matches!(rig.settle(rtl), DrawableState::Ready(_)));
    let key = TextureKey::Dual { pages: DualKey { left: 1, right: Some(0) }, bucket: 4 };
    let spread = rig.pipeline.upload_source(key).unwrap();
    assert_eq!(&spread.pixels()[0..4], &[0, 0, 255, 255]);
    assert_eq!(&spread.pixels()[4 * 20..4 * 20 + 4], &[255, 0, 0, 255]);
}

#[test]
fn a_standalone_page_is_drawn_alone_in_dual_layout() {
    let mut rig = Rig::open(small_archive(4), config(), vec![0]);
    match rig.settle(view(0, Layout::Dual, 1000)) {
        DrawableState::Ready(texture) => assert_eq!((texture.width, texture.height), (20, 30)),
        other => panic!("not ready: {:?}", other),
    }
    match rig.settle(view(1, Layout::Dual, 1000)) {
        DrawableState::Ready(texture) => assert_eq!((texture.width, texture.height), (40, 30)),
        other => panic!("not ready: {:?}", other),
    }
    // the last page has no partner
    match rig.settle(view(3, Layout::Dual, 1000)) {
        DrawableState::Ready(texture) => assert_eq!((texture.width, texture.height), (20, 30)),
        other => panic!("not ready: {:?}", other),
    }
}

#[test]
fn the_same_view_gets_the_same_texture() {
    let mut rig = Rig::open(small_archive(4), config(), Vec::new());
    let a = view(1, Layout::Dual, 1000);
    let b = view(1, Layout::Dual, 1100);
    assert_eq!(rig.frame(a), DrawableState::Pending);
    assert_eq!(rig.frame(b), DrawableState::Pending);
    rig.run_jobs();
    let _ = rig.frame(a);
    let first = rig.frame(a);
    assert!(matches!(first, DrawableState::Ready(_)));
    assert_eq!(rig.frame(b), first);
    assert_eq!(rig.frame(a), first);
    assert_eq!(rig.uploads, 1);
}

#[test]
fn a_page_larger_than_the_byte_budget_still_becomes_ready() {
    let mut small = config();
    small.max_bytes = 1000;
    // 20 x 30 pixels are 2400 bytes
    let mut rig = Rig::open(small_archive(3), small, Vec::new());
    let v = view(1, Layout::Single, 1000);
    assert_eq!(rig.frame(v), DrawableState::Pending);
    assert_eq!(rig.run_one_job(), Some(JobOutcome::Cached(1)));
    assert_eq!(rig.pipeline.cached_pages(), 1);
    assert_eq!(rig.frame(v), DrawableState::Pending);
    assert!(matches!(rig.frame(v), DrawableState::Ready(_)));
    assert_eq!(rig.uploads, 1);
    // each prefetched page pushes the one before it out
    rig.run_jobs();
    assert_eq!(rig.pipeline.cached_pages(), 1);
}

#[test]
fn evicted_pages_come_back_through_the_pipeline() {
    let mut tight = config();
    tight.max_pages = 2;
    tight.prefetch_ahead = 0;
    let mut rig = Rig::open(small_archive(5), tight, Vec::new());
    for page in 0..5usize {
        assert!(matches!(rig.settle(view(page, Layout::Single, 1000)), DrawableState::Ready(_)));
        assert!(rig.pipeline.cached_pages() <= 2);
    }
    assert_eq!(rig.pipeline.page_state(0), PageState::Pending);
    assert!(rig.pipeline.page(0).is_none());
    // the texture outlives the page; the page is decoded again when asked for
    assert_eq!(rig.frame(view(0, Layout::Single, 1000)), DrawableState::Pending);
    assert_eq!(rig.run_one_job(), Some(JobOutcome::Cached(0)));
    assert!(matches!(rig.frame(view(0, Layout::Single, 1000)), DrawableState::Ready(_)));
}

#[test]
fn closing_with_decodes_in_flight_leaves_nothing_behind() {
    let mut rig = Rig::open(small_archive(10), config(), Vec::new());
    let _ = rig.settle(view(0, Layout::Single, 1000));
    assert!(rig.pipeline.texture_count() > 0);
    let _ = rig.frame(view(5, Layout::Dual, 1000));
    let jobs: Vec<Job> = (0..4).map(|_| rig.pipeline.next_job().unwrap()).collect();
    assert!(!rig.pipeline.is_idle());
    let released = rig.pipeline.shutdown();
    rig.release(released);
    assert!(rig.live.is_empty());
    assert_eq!(rig.pipeline.texture_count(), 0);
    assert_eq!(rig.pipeline.cached_pages(), 0);
    for job in jobs {
        let result = rig.decode(job);
        assert_eq!(rig.pipeline.finish_job(job, result), JobOutcome::Discarded);
    }
    assert!(rig.pipeline.is_idle());
    assert_eq!(rig.pipeline.cached_pages(), 0);
    // nothing is scheduled any more
    assert_eq!(rig.frame(view(5, Layout::Single, 1000)), DrawableState::Pending);
    assert!(rig.pipeline.next_job().is_none());
}

#[test]
fn a_new_archive_starts_from_nothing() {
    let mut rig = Rig::open(small_archive(10), config(), Vec::new());
    let _ = rig.settle(view(0, Layout::Single, 1000));
    let _ = rig.frame(view(8, Layout::Single, 1000));
    let running = rig.pipeline.next_job().unwrap();
    assert_eq!(running.ticket.page, 8);
    let released = rig.pipeline.notify_archive_changed(2, vec![0]);
    assert_eq!(released, vec![1]);
    assert_eq!(rig.pipeline.total_pages(), 2);
    assert_eq!(rig.pipeline.cached_pages(), 0);
    assert_eq!(rig.pipeline.texture_count(), 0);
    // the decode of the old archive ends unheard
    let stale = rig.decode(running);
    assert_eq!(rig.pipeline.finish_job(running, stale), JobOutcome::Discarded);
    assert_eq!(rig.pipeline.cached_pages(), 0);
}

#[test]
fn an_edited_page_is_forgotten_everywhere() {
    let mut rig = Rig::open(small_archive(4), config(), Vec::new());
    let _ = rig.settle(view(0, Layout::Dual, 1000));
    assert_eq!(rig.pipeline.texture_count(), 1);
    let released = rig.pipeline.invalidate_page(1);
    rig.release(released);
    assert_eq!(rig.pipeline.texture_count(), 0);
    assert_eq!(rig.pipeline.page_state(1), PageState::Pending);
    assert_eq!(rig.pipeline.page_state(0), PageState::Present);
    // the spread is composed anew once the page is back
    rig.archive[1] = png_bytes(20, 30, [7, 7, 7, 255]);
    assert!(matches!(rig.settle(view(0, Layout::Dual, 1000)), DrawableState::Ready(_)));
    let key = TextureKey::Dual { pages: DualKey { left: 0, right: Some(1) }, bucket: 4 };
    let spread = rig.pipeline.upload_source(key).unwrap();
    assert_eq!(&spread.pixels()[4 * 20..4 * 20 + 4], &[7, 7, 7, 255]);
}

#[test]
fn upload_source_is_the_page_for_a_single_drawable() {
    let mut rig = Rig::open(small_archive(2), config(), Vec::new());
    let key = TextureKey::Single { page: 1, bucket: 4 };
    assert!(rig.pipeline.upload_source(key).is_none());
    let _ = rig.settle(view(1, Layout::Single, 1000));
    let source = rig.pipeline.upload_source(key).unwrap();
    assert_eq!(&source.pixels()[0..4], &[1, 0, 0, 255]);
    let pair = TextureKey::Dual { pages: DualKey { left: 1, right: Some(5) }, bucket: 4 };
    assert!(rig.pipeline.upload_source(pair).is_none());
}

#[test]
fn the_standard_configuration_has_the_documented_sizes() {
    let c = PipelineConfig::standard();
    assert_eq!(c.max_pages, 32);
    assert_eq!(c.max_bytes, 512 * 1024 * 1024);
    assert_eq!(c.max_composites, 4);
    assert_eq!(c.max_textures, 16);
    assert_eq!(c.prefetch_ahead, 4);
    assert_eq!(c.keep_window, 16);
    assert_eq!(c.upload_attempts, 3);
    assert_eq!(c.ladder.step_size(), 250);
}

#[test]
fn an_upload_that_keeps_failing_fails_the_drawable() {
    let mut rig = Rig::open(small_archive(2), config(), Vec::new());
    let v = view(0, Layout::Single, 1000);
    let _ = rig.pipeline.drawables_for(v);
    rig.run_jobs();
    for _ in 0..3 {
        let answer = rig.pipeline.drawables_for(v);
        assert_eq!(answer.primary, DrawableState::Pending);
        let key = answer.upload.expect("the upload is tried again");
        rig.pipeline.texture_upload_failed(key);
    }
    let answer = rig.pipeline.drawables_for(v);
    assert_eq!(answer.primary, DrawableState::Failed(ErrorKind::TextureUpload));
    assert!(answer.upload.is_none());
    // another drawable is not held back by it
    assert!(matches!(rig.settle(view(1, Layout::Single, 1000)), DrawableState::Ready(_)));
}

#[test]
fn an_upload_that_succeeds_forgets_the_failures() {
    let mut rig = Rig::open(small_archive(1), config(), Vec::new());
    let v = view(0, Layout::Single, 1000);
    let _ = rig.pipeline.drawables_for(v);
    rig.run_jobs();
    for _ in 0..2 {
        let key = rig.pipeline.drawables_for(v).upload.unwrap();
        rig.pipeline.texture_upload_failed(key);
    }
    assert!(matches!(rig.settle(v), DrawableState::Ready(_)));
    let released = rig.pipeline.notify_zoom_changed(3000);
    rig.release(released);
    // the count starts over
    let key = rig.pipeline.drawables_for(v).upload.unwrap();
    rig.pipeline.texture_upload_failed(key);
    assert_eq!(rig.pipeline.drawables_for(v).primary, DrawableState::Pending);
}

#[test]
fn a_lost_render_context_drains_the_textures() {
    let mut rig = Rig::open(small_archive(3), config(), Vec::new());
    let _ = rig.settle(view(0, Layout::Single, 1000));
    let _ = rig.settle(view(1, Layout::Single, 1000));
    assert_eq!(rig.pipeline.texture_count(), 2);
    let mut released = rig.pipeline.notify_context_lost();
    released.sort();
    assert_eq!(released, vec![1, 2]);
    assert_eq!(rig.pipeline.texture_count(), 0);
    // the pages are still decoded; only the upload is done again
    assert_eq!(rig.pipeline.cached_pages(), 3);
    rig.live.clear();
    assert_eq!(rig.frame(view(0, Layout::Single, 1000)), DrawableState::Pending);
    assert!(matches!(rig.frame(view(0, Layout::Single, 1000)), DrawableState::Ready(_)));
}

#[test]
fn a_texture_carries_the_size_of_its_drawable() {
    let archive = vec![png_bytes(20, 30, [1, 1, 1, 255]), png_bytes(10, 50, [2, 2, 2, 255])];
    let mut rig = Rig::open(archive, config(), Vec::new());
    match rig.settle(view(1, Layout::Single, 1000)) {
        DrawableState::Ready(texture) => assert_eq!((texture.width, texture.height), (10, 50)),
        other => panic!("not ready: {:?}", other),
    }
    match rig.settle(view(0, Layout::Dual, 2000)) {
        DrawableState::Ready(texture) => assert_eq!((texture.width, texture.height), (30, 50)),
        other => panic!("not ready: {:?}", other),
    }
}

#[test]
fn a_texture_without_pages_is_handed_back() {
    let mut rig = Rig::open(small_archive(2), config(), Vec::new());
    let key = TextureKey::Single { page: 1, bucket: 4 };
    assert_eq!(rig.pipeline.texture_uploaded(key, 9), vec![9]);
    assert_eq!(rig.pipeline.texture_count(), 0);
    let pair = TextureKey::Dual { pages: DualKey { left: 0, right: Some(1) }, bucket: 4 };
    assert_eq!(rig.pipeline.texture_uploaded(pair, 10), vec![10]);
    assert_eq!(rig.pipeline.texture_count(), 0);
}

#[test]
fn edited_hints_keep_the_pages_and_drop_the_spreads() {
    let mut rig = Rig::open(small_archive(4), config(), Vec::new());
    assert!(matches!(rig.settle(view(0, Layout::Dual, 1000)), DrawableState::Ready(_)));
    let cached = rig.pipeline.cached_pages();
    let released = rig.pipeline.notify_hints_changed(vec![0]);
    assert_eq!(released, vec![1]);
    rig.release(released);
    assert_eq!(rig.pipeline.cached_pages(), cached);
    assert!(rig.pipeline.next_job().is_none());
    // the first page now stands alone
    match rig.settle(view(0, Layout::Dual, 1000)) {
        DrawableState::Ready(texture) => assert_eq!((texture.width, texture.height), (20, 30)),
        other => panic!("not ready: {:?}", other),
    }
}

#[test]
fn a_composed_spread_is_kept_for_the_next_time() {
    let archive = vec![png_bytes(20, 30, [255, 0, 0, 255]), png_bytes(20, 30, [0, 0, 255, 255])];
    let mut rig = Rig::open(archive, config(), Vec::new());
    let _ = rig.settle(view(0, Layout::Dual, 1000));
    let key = TextureKey::Dual { pages: DualKey { left: 0, right: Some(1) }, bucket: 4 };
    let first = rig.pipeline.upload_source(key).unwrap().pixels().clone();
    let again = rig.pipeline.upload_source(key).unwrap().pixels().clone();
    assert_eq!(first, again);
    assert_eq!(first.len(), 40 * 30 * 4);
    // a pair of pages that are not both cached has no spread
    let other = TextureKey::Dual { pages: DualKey { left: 1, right: Some(7) }, bucket: 4 };
    assert!(rig.pipeline.upload_source(other).is_none());
}

#[test]
fn edited_hints_keep_the_textures_of_untouched_pages() {
    let mut rig = Rig::open(small_archive(10), config(), Vec::new());
    assert!(matches!(rig.settle(view(0, Layout::Dual, 1000)), DrawableState::Ready(_)));
    assert_eq!(rig.live, vec![1]);
    // page 6 is marked: the spread of pages 0 and 1 is not touched
    assert!(rig.pipeline.notify_hints_changed(vec![6]).is_empty());
    assert_eq!(rig.pipeline.texture_count(), 1);
    let before = rig.uploads;
    match rig.frame(view(0, Layout::Dual, 1000)) {
        DrawableState::Ready(texture) => assert_eq!(texture.id, 1),
        other => panic!("not ready: {:?}", other),
    }
    assert_eq!(rig.uploads, before);
    // marking the same pages again changes nothing
    assert!(rig.pipeline.notify_hints_changed(vec![6, 6]).is_empty());
    // page 1 is marked as well: the spread that shows it goes
    assert_eq!(rig.pipeline.notify_hints_changed(vec![6, 1]), vec![1]);
    assert_eq!(rig.pipeline.texture_count(), 0);
}

#[test]
fn edited_hints_drop_single_textures_of_changed_pages_only() {
    let mut rig = Rig::open(small_archive(6), config(), vec![3]);
    assert!(matches!(rig.settle(view(2, Layout::Single, 1000)), DrawableState::Ready(_)));
    assert!(matches!(rig.settle(view(3, Layout::Single, 1000)), DrawableState::Ready(_)));
    assert_eq!(rig.pipeline.texture_count(), 2);
    // page 3 is no longer marked
    let released = rig.pipeline.notify_hints_changed(Vec::new());
    assert_eq!(released, vec![2]);
    rig.release(released);
    assert_eq!(rig.pipeline.texture_count(), 1);
    assert!(matches!(rig.frame(view(2, Layout::Single, 1000)), DrawableState::Ready(_)));
}

#[test]
fn a_failed_page_is_tried_again_on_request() {
    let mut archive = small_archive(3);
    let good = archive[1].clone();
    archive[1] = b"broken".to_vec();
    let mut rig = Rig::open(archive, config(), Vec::new());
    let v = view(1, Layout::Single, 1000);
    assert_eq!(rig.settle(v), DrawableState::Failed(ErrorKind::FormatError));
    assert!(rig.pipeline.next_job().is_none());
    // the entry was repaired
    rig.archive[1] = good;
    assert!(matches!(rig.pipeline.retry(1), RequestOutcome::Pending(_)));
    assert_eq!(rig.pipeline.page_state(1), PageState::Pending);
    assert_eq!(rig.frame(v), DrawableState::Pending);
    assert!(matches!(rig.settle(v), DrawableState::Ready(_)));
    // a cached page needs nothing
    assert_eq!(rig.pipeline.retry(1), RequestOutcome::Completed);
    assert!(rig.pipeline.next_job().is_none());
}
