//! The pipeline: what the user interface asks, once per frame, for the
//! drawable of the page in view.
//!
//! The pipeline owns the decoded page cache, the cache of composed
//! spreads, the texture cache and the decode scheduler. It decides what is
//! drawn, what is decoded next and which textures are released; reading
//! the archive, running the decodes and talking to the GPU are its
//! owner's work, who reports back what came of them.

use crate::compose::{compose, fits, spread, spread_fits};
use crate::error::ErrorKind;
use crate::layout::{
    other_layout, placed, placed_of, required_of, required_pages, DualKey, Layout,
    ReadingDirection,
};
use crate::page::DecodedPage;
use crate::page_cache::{inserted, lemma_inserted, DecodedPageCache};
use crate::recency::{distinct, has_key, lemma_touched, lookup, touched};
use crate::spread_cache::SpreadCache;
use crate::scheduler::{
    lemma_request_wf, lemma_starts_none, none_in_flight, Completion, Job, Priority,
    RequestOutcome, Rule,
    Scheduler, SchedulerModel, Ticket,
};
use crate::texture::{
    dropped, dropped_marks, ids_of, kept_marks, lemma_surviving, surviving, Invalidation, Texture,
    TextureCache, TextureKey,
};
use crate::zoom::ZoomLadder;
use vstd::prelude::*;

verus! {

/// What the user looks at.
#[derive(Clone, Copy, Debug)]
pub struct ViewState {
    pub page: usize,
    pub layout: Layout,
    /// The zoom, in thousandths of the native size.
    pub zoom: u32,
    pub direction: ReadingDirection,
}

/// The sizes of the pipeline's caches and of its prefetch window.
#[derive(Clone, Copy, Debug)]
pub struct PipelineConfig {
    /// The largest number of decoded pages kept.
    pub max_pages: usize,
    /// The largest number of bytes of decoded pages kept.
    pub max_bytes: usize,
    /// The largest number of composed spreads kept.
    pub max_composites: usize,
    /// The largest number of textures kept.
    pub max_textures: usize,
    /// How many pages ahead are prefetched; half as many behind.
    pub prefetch_ahead: usize,
    /// How far from the page in view a prefetch may be before it is cancelled.
    pub keep_window: usize,
    /// The rungs that zoom levels are snapped to.
    pub ladder: ZoomLadder,
    /// How many uploads of one drawable may fail in a row before the
    /// drawable is shown as failed.
    pub upload_attempts: u8,
}

impl PipelineConfig {
    /// Whether every cache has room for at least one entry.
    pub open spec fn ok(self) -> bool {
        self.max_pages >= 1 && self.max_composites >= 1 && self.max_textures >= 1
            && self.upload_attempts >= 1
    }

    /// 32 pages in 512 MiB, 4 spreads, 16 textures, 4 pages of prefetch
    /// within a window of 16, zoom in quarter steps, 3 attempts to upload.
    pub fn standard() -> (c: PipelineConfig)
        ensures
            c.ok(),
            c.max_pages == 32,
            c.max_bytes == 536870912,
            c.max_composites == 4,
            c.max_textures == 16,
            c.prefetch_ahead == 4,
            c.keep_window == 16,
            c.upload_attempts == 3,
            c.ladder.step() == 250,
            c.ladder.lowest() == 1,
            c.ladder.highest() == 40,
    {
        PipelineConfig {
            max_pages: 32,
            max_bytes: 536870912,
            max_composites: 4,
            max_textures: 16,
            prefetch_ahead: 4,
            keep_window: 16,
            ladder: ZoomLadder::quarters(),
            upload_attempts: 3,
        }
    }
}

/// How far a page has come.
#[derive(Clone, Copy, Debug, PartialEq, Eq, Structural)]
pub enum PageState {
    /// Decoded and cached.
    Present,
    /// Not cached; a decode waits, runs or was just asked for.
    Pending,
    /// The last decode failed.
    Failed(ErrorKind),
}

/// What to draw for the page in view.
#[derive(Clone, Copy, Debug, PartialEq, Eq)]
pub enum DrawableState {
    /// Draw this texture; it carries the size of the drawable in pixels.
    Ready(Texture),
    /// Draw a spinner.
    Pending,
    /// Draw a placeholder.
    Failed(ErrorKind),
}

/// What became of a finished job.
#[derive(Clone, Copy, Debug, PartialEq, Eq, Structural)]
pub enum JobOutcome {
    /// The page is cached now.
    Cached(usize),
    /// The page failed.
    Failed(usize, ErrorKind),
    /// The result was thrown away.
    Discarded,
}

/// The pipeline, as specifications see it.
pub struct PipelineModel {
    /// The decoded pages, most recently used first.
    pub pages: Seq<(usize, DecodedPage)>,
    /// The composed spreads, most recently used first.
    pub composites: Seq<(DualKey, DecodedPage)>,
    /// The textures, most recently used first.
    pub textures: Seq<(TextureKey, Texture)>,
    pub scheduler: SchedulerModel,
    pub total_pages: usize,
    /// The pages that are never paired.
    pub standalone: Seq<usize>,
    /// The drawable whose upload failed last, and how often in a row.
    pub failed_upload: Option<(TextureKey, u8)>,
    pub config: PipelineConfig,
}

/// Whether a composed spread is the spread of the pages it was made of,
/// as far as both are cached.
pub open spec fn composite_ok(e: (DualKey, DecodedPage), pages: Seq<(usize, DecodedPage)>) -> bool {
    match e.0.right {
        Some(r) => has_key(pages, e.0.left) && has_key(pages, r) ==> e.1@ == spread(
            crate::recency::value_of(pages, e.0.left)@,
            crate::recency::value_of(pages, r)@,
        ),
        None => false,
    }
}

/// Whether every composed spread is the spread of the pages it was made of.
pub open spec fn composites_ok(
    cs: Seq<(DualKey, DecodedPage)>,
    pages: Seq<(usize, DecodedPage)>,
) -> bool {
    forall|i: int| 0 <= i < cs.len() ==> composite_ok(#[trigger] cs[i], pages)
}

/// The composed spreads that do not show `page`, in their order.
pub open spec fn not_showing(cs: Seq<(DualKey, DecodedPage)>, page: usize) -> Seq<
    (DualKey, DecodedPage),
>
    decreases cs.len(),
{
    if cs.len() == 0 {
        cs
    } else if cs.last().0.holds(page) {
        not_showing(cs.drop_last(), page)
    } else {
        not_showing(cs.drop_last(), page).push(cs.last())
    }
}

/// Composed spreads stay right while the cached pages keep their contents.
proof fn lemma_composites_follow(
    cs: Seq<(DualKey, DecodedPage)>,
    pages: Seq<(usize, DecodedPage)>,
    later: Seq<(usize, DecodedPage)>,
)
    requires
        composites_ok(cs, pages),
        forall|o: usize| #[trigger]
            has_key(later, o) ==> has_key(pages, o) && lookup(later, o) == lookup(pages, o),
    ensures
        composites_ok(cs, later),
{
    assert forall|i: int| 0 <= i < cs.len() implies composite_ok(#[trigger] cs[i], later) by {
        assert(composite_ok(cs[i], pages));
    }
}

/// A step keeps cached pages and decodes apart where it starts no decode
/// and caches no page, but for one page `but` that it may do either for,
/// not both.
proof fn lemma_stays_disjoint(
    ts: Seq<Ticket>,
    pages: Seq<(usize, DecodedPage)>,
    later_ts: Seq<Ticket>,
    later_pages: Seq<(usize, DecodedPage)>,
    but: Option<usize>,
)
    requires
        disjoint(ts, pages),
        crate::scheduler::starts_none(later_ts, ts, but),
        forall|i: int|
            0 <= i < later_pages.len() ==> has_key(pages, (#[trigger] later_pages[i]).0) || Some(
                later_pages[i].0,
            ) == but,
        but matches Some(q) ==> !has_key(later_pages, q) || none_in_flight(later_ts, q),
    ensures
        disjoint(later_ts, later_pages),
{
    assert forall|p: usize| #[trigger] has_key(later_pages, p) implies none_in_flight(
        later_ts,
        p,
    ) by {
        let i = choose|i: int| 0 <= i < later_pages.len() && (#[trigger] later_pages[i]).0 == p;
        if Some(p) != but {
            assert(has_key(pages, later_pages[i].0));
            assert(none_in_flight(ts, p));
        }
    }
}

/// No page both is cached and has a decode waiting or running.
pub open spec fn disjoint(ts: Seq<Ticket>, pages: Seq<(usize, DecodedPage)>) -> bool {
    forall|p: usize| #[trigger] has_key(pages, p) ==> none_in_flight(ts, p)
}

impl PipelineModel {
    /// How far page `i` has come.
    pub open spec fn page_state(self, i: usize) -> PageState {
        if has_key(self.pages, i) {
            PageState::Present
        } else {
            match self.scheduler.failure(i) {
                Some(kind) => PageState::Failed(kind),
                None => PageState::Pending,
            }
        }
    }

    /// The rung that the zoom of a view is snapped to.
    pub open spec fn bucket_of(self, view: ViewState) -> u32 {
        self.config.ladder.rung_of(view.zoom as int) as u32
    }

    /// The pages that a view needs.
    pub open spec fn needed(self, view: ViewState) -> DualKey {
        required_of(view.layout, self.total_pages, self.standalone, view.page)
    }

    /// The key of the drawable of a view.
    pub open spec fn key_of(self, view: ViewState) -> TextureKey {
        TextureKey::of(
            view.layout,
            placed_of(self.needed(view), view.direction),
            self.bucket_of(view),
        )
    }

    /// The pipeline after the textures that a view cannot use were
    /// dropped: those of the other layout and those of other zoom rungs.
    pub open spec fn settled(self, view: ViewState) -> PipelineModel {
        PipelineModel {
            textures: surviving(
                surviving(self.textures, Invalidation::OfLayout(other_layout(view.layout))),
                Invalidation::NotOfBucket(self.bucket_of(view)),
            ),
            ..self
        }
    }

    /// The textures that settling for a view releases.
    pub open spec fn settling_releases(self, view: ViewState) -> Seq<u64> {
        ids_of(dropped(self.textures, Invalidation::OfLayout(other_layout(view.layout))))
            + ids_of(
            dropped(
                surviving(self.textures, Invalidation::OfLayout(other_layout(view.layout))),
                Invalidation::NotOfBucket(self.bucket_of(view)),
            ),
        )
    }

    /// The pipeline after page `i` was wanted at `priority`: a cached page
    /// is marked as used where `touch` says so, a page that is neither
    /// cached nor failed is requested.
    pub open spec fn wanted(self, i: usize, priority: Priority, touch: bool) -> PipelineModel {
        if has_key(self.pages, i) {
            if touch {
                PipelineModel { pages: touched(self.pages, i), ..self }
            } else {
                self
            }
        } else if self.scheduler.failure(i) is None {
            PipelineModel { scheduler: self.scheduler.after_request(i, priority, false), ..self }
        } else {
            self
        }
    }
}

/// The pages after `page` that are prefetched: at most `n`, as far as the
/// archive goes.
pub open spec fn ahead_of(page: usize, total: usize, n: usize) -> Seq<usize> {
    Seq::new(
        if n <= total - 1 - page {
            n as nat
        } else {
            (total - 1 - page) as nat
        },
        |d: int| (page + 1 + d) as usize,
    )
}

/// The pages before `page` that are prefetched: at most `n`, nearest first.
pub open spec fn behind_of(page: usize, n: usize) -> Seq<usize> {
    Seq::new(
        if n <= page {
            n as nat
        } else {
            page as nat
        },
        |d: int| (page - 1 - d) as usize,
    )
}

/// The pages that are prefetched around `page`: `ahead` pages after it,
/// then half as many before it.
pub open spec fn prefetch_targets(page: usize, total: usize, ahead: usize) -> Seq<usize> {
    ahead_of(page, total, ahead) + behind_of(page, (ahead / 2) as usize)
}

impl PipelineModel {
    /// The pipeline after each of `pages` was wanted at `priority`, one
    /// after the other, without marking any as used.
    pub open spec fn wanted_all(self, pages: Seq<usize>, priority: Priority) -> PipelineModel
        decreases pages.len(),
    {
        if pages.len() == 0 {
            self
        } else {
            self.wanted_all(pages.drop_last(), priority).wanted(pages.last(), priority, false)
        }
    }

    /// Those of `pages` that were neither cached nor failed when their
    /// turn came, and so were requested.
    pub open spec fn request_log(self, pages: Seq<usize>, priority: Priority) -> Seq<usize>
        decreases pages.len(),
    {
        if pages.len() == 0 {
            Seq::empty()
        } else if self.wanted_all(pages.drop_last(), priority).page_state(pages.last())
            == PageState::Pending {
            self.request_log(pages.drop_last(), priority).push(pages.last())
        } else {
            self.request_log(pages.drop_last(), priority)
        }
    }

    /// The pipeline after the pages of a view were wanted: each is marked
    /// as used or requested as visible.
    pub open spec fn visible(self, view: ViewState) -> PipelineModel {
        let need = self.needed(view);
        let first = self.wanted(need.left, Priority::Visible, true);
        match need.right {
            Some(r) => first.wanted(r, Priority::Visible, true),
            None => first,
        }
    }

    /// Whether every page of a view is cached.
    pub open spec fn all_present(self, view: ViewState) -> bool {
        let need = self.needed(view);
        has_key(self.pages, need.left) && match need.right {
            Some(r) => has_key(self.pages, r),
            None => true,
        }
    }

    /// Whether the pages of a view make a drawable that can be held: a
    /// single page always does, a pair if its spread fits.
    pub open spec fn drawable_fits(self, view: ViewState) -> bool {
        let need = self.needed(view);
        match need.right {
            Some(r) => spread_fits(
                crate::recency::value_of(self.pages, need.left)@,
                crate::recency::value_of(self.pages, r)@,
            ),
            None => true,
        }
    }

    /// The composed spreads once `spread` was handed out for `pair`: a
    /// spread that was kept is marked as used, a new one is kept as the
    /// most recently used, in place of the least recently used where there
    /// is no room.
    pub open spec fn spreads_with(self, pair: DualKey, spread: DecodedPage) -> Seq<
        (DualKey, DecodedPage),
    > {
        if has_key(self.composites, pair) {
            touched(self.composites, pair)
        } else {
            crate::recency::stored(
                self.composites,
                pair,
                spread,
                self.config.max_composites as int,
            )
        }
    }

    /// The pipeline after the texture numbered `id` was uploaded for the
    /// drawable `key`, whose image is `source`: the texture is kept with
    /// the size of that image.
    pub open spec fn after_upload(self, key: TextureKey, id: u64, source: crate::page::PageModel) -> PipelineModel {
        PipelineModel {
            textures: crate::recency::stored(
                self.textures,
                key,
                Texture { id, width: source.width as u32, height: source.height as u32 },
                self.config.max_textures as int,
            ),
            failed_upload: self.failures_after_upload(key),
            ..self
        }
    }

    /// Whether the upload of the drawable `key` failed so often in a row
    /// that it is no longer tried.
    pub open spec fn given_up(self, key: TextureKey) -> bool {
        match self.failed_upload {
            Some((k, n)) => k == key && n >= self.config.upload_attempts,
            None => false,
        }
    }

    /// The pipeline after an upload of the drawable `key` failed.
    pub open spec fn after_upload_failure(self, key: TextureKey) -> PipelineModel {
        PipelineModel {
            failed_upload: match self.failed_upload {
                Some((k, n)) => if k == key {
                    Some(
                        (
                            key,
                            if n < u8::MAX {
                                (n + 1) as u8
                            } else {
                                n
                            },
                        ),
                    )
                } else {
                    Some((key, 1u8))
                },
                None => Some((key, 1u8)),
            },
            ..self
        }
    }

    /// What is remembered of failed uploads once the drawable `key` was
    /// uploaded.
    pub open spec fn failures_after_upload(self, key: TextureKey) -> Option<(TextureKey, u8)> {
        match self.failed_upload {
            Some((k, n)) => if k == key {
                None
            } else {
                self.failed_upload
            },
            None => None,
        }
    }

    /// How far the second page of a view has come; a view of one page
    /// lacks nothing there.
    pub open spec fn partner_state(self, view: ViewState) -> PageState {
        match self.needed(view).right {
            Some(r) => self.page_state(r),
            None => PageState::Present,
        }
    }

    /// What is drawn for a view.
    pub open spec fn primary(self, view: ViewState) -> DrawableState {
        if view.page >= self.total_pages {
            DrawableState::Failed(ErrorKind::OutOfRange)
        } else {
            match (self.page_state(self.needed(view).left), self.partner_state(view)) {
                (PageState::Failed(kind), _) => DrawableState::Failed(kind),
                (_, PageState::Failed(kind)) => DrawableState::Failed(kind),
                (PageState::Pending, _) => DrawableState::Pending,
                (_, PageState::Pending) => DrawableState::Pending,
                (PageState::Present, PageState::Present) => if !self.drawable_fits(view) {
                    DrawableState::Failed(ErrorKind::OutOfMemory)
                } else {
                    match lookup(self.settled(view).textures, self.key_of(view)) {
                        Some(t) => DrawableState::Ready(t),
                        None => if self.given_up(self.key_of(view)) {
                            DrawableState::Failed(ErrorKind::TextureUpload)
                        } else {
                            DrawableState::Pending
                        },
                    }
                },
            }
        }
    }

    /// The drawable that is to be uploaded for a view: the one of its
    /// key, if the pages are there and no texture is.
    pub open spec fn upload_wanted(self, view: ViewState) -> Option<TextureKey> {
        if view.page < self.total_pages && self.all_present(view) && self.drawable_fits(view)
            && !has_key(self.settled(view).textures, self.key_of(view)) && !self.given_up(
            self.key_of(view),
        ) {
            Some(self.key_of(view))
        } else {
            None
        }
    }

    /// The pipeline after the texture of a view was looked up, where its
    /// pages are there: a texture that is found is marked as used.
    pub open spec fn drawn(self, view: ViewState) -> PipelineModel {
        if self.all_present(view) && self.drawable_fits(view) {
            PipelineModel { textures: touched(self.textures, self.key_of(view)), ..self }
        } else {
            self
        }
    }

    /// The pipeline after the prefetches far from `center` were cancelled.
    pub open spec fn swept(self, center: usize) -> PipelineModel {
        PipelineModel {
            scheduler: self.scheduler.after_sweep(center, self.config.keep_window),
            ..self
        }
    }

    /// The pages that are prefetched around the page of a view.
    pub open spec fn targets(self, view: ViewState) -> Seq<usize> {
        prefetch_targets(view.page, self.total_pages, self.config.prefetch_ahead)
    }

    /// The pipeline after the drawable of a view was asked for. A view of
    /// a page that the archive does not have changes nothing. Otherwise
    /// the textures that the view cannot use are dropped, its pages are
    /// marked as used or requested, its texture is marked as used, the
    /// pages around it are requested, and prefetches far from it are
    /// cancelled.
    pub open spec fn after_view(self, view: ViewState) -> PipelineModel {
        if view.page >= self.total_pages {
            self
        } else {
            self.settled(view).visible(view).drawn(view).wanted_all(
                self.targets(view),
                Priority::Prefetch,
            ).swept(view.page)
        }
    }
}

/// Wanting one page changes nothing for another: it is cached or not as
/// before, with the same contents, and has failed or not as before.
pub proof fn lemma_wanted(m: PipelineModel, i: usize, priority: Priority, touch: bool, o: usize)
    requires
        distinct(m.pages),
        m.scheduler.wf(),
    ensures
        distinct(m.wanted(i, priority, touch).pages),
        m.wanted(i, priority, touch).scheduler.wf(),
        m.wanted(i, priority, touch).textures == m.textures,
        m.wanted(i, priority, touch).total_pages == m.total_pages,
        m.wanted(i, priority, touch).standalone == m.standalone,
        m.wanted(i, priority, touch).config == m.config,
        m.wanted(i, priority, touch).failed_upload == m.failed_upload,
        has_key(m.wanted(i, priority, touch).pages, o) == has_key(m.pages, o),
        lookup(m.wanted(i, priority, touch).pages, o) == lookup(m.pages, o),
        o != i ==> m.wanted(i, priority, touch).scheduler.failure(o) == m.scheduler.failure(o),
        m.wanted(i, priority, touch).page_state(o) == m.page_state(o),
{
    lemma_touched(m.pages, i);
    lemma_request_wf(m.scheduler, i, priority, false);
    if o != i {
        crate::scheduler::lemma_request_failure(m.scheduler, i, priority, o);
    } else if m.scheduler.failure(i) is None {
        crate::scheduler::lemma_request_own_failure(m.scheduler, i, priority);
    }
}

/// Wanting the pages of a view changes nothing that the drawable of the
/// view depends on: the same pages are cached, with the same contents, and
/// the same pages have failed.
pub proof fn lemma_visible(m: PipelineModel, view: ViewState)
    requires
        distinct(m.pages),
        m.scheduler.wf(),
        view.page < m.total_pages,
    ensures
        m.settled(view).visible(view).textures == m.settled(view).textures,
        m.settled(view).visible(view).total_pages == m.total_pages,
        m.settled(view).visible(view).standalone == m.standalone,
        m.settled(view).visible(view).config == m.config,
        m.settled(view).visible(view).failed_upload == m.failed_upload,
        distinct(m.settled(view).visible(view).pages),
        m.settled(view).visible(view).scheduler.wf(),
        m.settled(view).page_state(m.needed(view).left) == m.page_state(m.needed(view).left),
        m.needed(view).right matches Some(r) ==> m.settled(view).wanted(
            m.needed(view).left,
            Priority::Visible,
            true,
        ).page_state(r) == m.page_state(r),
        m.settled(view).visible(view).all_present(view) == m.all_present(view),
        m.all_present(view) ==> m.settled(view).visible(view).drawable_fits(view)
            == m.drawable_fits(view),
{
    let s = m.settled(view);
    let need = m.needed(view);
    assert(s.needed(view) == need);
    let first = s.wanted(need.left, Priority::Visible, true);
    let v = s.visible(view);
    lemma_wanted(s, need.left, Priority::Visible, true, need.left);
    assert(first.needed(view) == need);
    match need.right {
        Some(r) => {
            assert(r != need.left);
            lemma_wanted(s, need.left, Priority::Visible, true, r);
            lemma_wanted(first, r, Priority::Visible, true, r);
            lemma_wanted(first, r, Priority::Visible, true, need.left);
            assert(v == first.wanted(r, Priority::Visible, true));
            assert(v.needed(view) == need);
            assert(has_key(v.pages, need.left) == has_key(m.pages, need.left));
            assert(has_key(v.pages, r) == has_key(m.pages, r));
            assert(lookup(v.pages, need.left) == lookup(m.pages, need.left));
            assert(lookup(v.pages, r) == lookup(m.pages, r));
        },
        None => {
            assert(v == first);
            assert(v.needed(view) == need);
            assert(has_key(v.pages, need.left) == has_key(m.pages, need.left));
        },
    }
}

/// Wanting pages touches neither the textures nor what is known of the
/// archive, and leaves the same pages cached.
pub proof fn lemma_wanted_all(m: PipelineModel, pages: Seq<usize>, priority: Priority)
    ensures
        m.wanted_all(pages, priority).pages == m.pages,
        m.wanted_all(pages, priority).textures == m.textures,
        m.wanted_all(pages, priority).total_pages == m.total_pages,
        m.wanted_all(pages, priority).standalone == m.standalone,
        m.wanted_all(pages, priority).config == m.config,
        m.wanted_all(pages, priority).failed_upload == m.failed_upload,
    decreases pages.len(),
{
    if pages.len() > 0 {
        lemma_wanted_all(m, pages.drop_last(), priority);
    }
}

/// Wanting pages ahead of time changes nothing for any page: it is
/// cached or not as before, and has failed or not as before.
pub proof fn lemma_wanted_all_state(m: PipelineModel, pages: Seq<usize>, priority: Priority, o: usize)
    requires
        distinct(m.pages),
        m.scheduler.wf(),
    ensures
        m.wanted_all(pages, priority).scheduler.wf(),
        m.wanted_all(pages, priority).page_state(o) == m.page_state(o),
    decreases pages.len(),
{
    lemma_wanted_all(m, pages, priority);
    if pages.len() > 0 {
        let before = m.wanted_all(pages.drop_last(), priority);
        lemma_wanted_all(m, pages.drop_last(), priority);
        lemma_wanted_all_state(m, pages.drop_last(), priority, o);
        lemma_wanted(before, pages.last(), priority, false, o);
    }
}

/// What a view leaves behind: the same pages cached with the same
/// contents, the same pages failed, and of the textures those that the
/// view can use, its own marked as used.
pub proof fn lemma_after_view(m: PipelineModel, view: ViewState, o: usize)
    requires
        distinct(m.pages),
        m.scheduler.wf(),
        view.page < m.total_pages,
    ensures
        m.after_view(view).total_pages == m.total_pages,
        m.after_view(view).standalone == m.standalone,
        m.after_view(view).config == m.config,
        m.after_view(view).failed_upload == m.failed_upload,
        distinct(m.after_view(view).pages),
        m.after_view(view).scheduler.wf(),
        has_key(m.after_view(view).pages, o) == has_key(m.pages, o),
        lookup(m.after_view(view).pages, o) == lookup(m.pages, o),
        m.after_view(view).page_state(o) == m.page_state(o),
        m.after_view(view).textures == if m.all_present(view) && m.drawable_fits(view) {
            touched(m.settled(view).textures, m.key_of(view))
        } else {
            m.settled(view).textures
        },
{
    let s = m.settled(view);
    let need = m.needed(view);
    let first = s.wanted(need.left, Priority::Visible, true);
    let v = s.visible(view);
    lemma_visible(m, view);
    lemma_wanted(s, need.left, Priority::Visible, true, o);
    match need.right {
        Some(r) => {
            lemma_wanted(s, need.left, Priority::Visible, true, r);
            lemma_wanted(first, r, Priority::Visible, true, o);
        },
        None => {},
    }
    assert(v.page_state(o) == m.page_state(o));
    assert(lookup(v.pages, o) == lookup(m.pages, o));
    let d = v.drawn(view);
    assert(d.key_of(view) == m.key_of(view));
    let w = d.wanted_all(m.targets(view), Priority::Prefetch);
    lemma_wanted_all(d, m.targets(view), Priority::Prefetch);
    lemma_wanted_all_state(d, m.targets(view), Priority::Prefetch, o);
    crate::scheduler::lemma_sweep_wf(w.scheduler, view.page, m.config.keep_window);
    crate::scheduler::lemma_sweep_failure(w.scheduler, view.page, m.config.keep_window, o);
    assert(m.after_view(view) == w.swept(view.page));
}

/// Two views of the same page in the same layout, reading direction and
/// zoom rung get the same answer: from the same pipeline, and from the
/// pipeline as the first of them left it.
pub proof fn lemma_same_view_same_drawable(m: PipelineModel, a: ViewState, b: ViewState)
    requires
        distinct(m.pages),
        distinct(m.textures),
        m.scheduler.wf(),
        a.page == b.page,
        a.layout == b.layout,
        a.direction == b.direction,
        m.bucket_of(a) == m.bucket_of(b),
    ensures
        m.primary(a) == m.primary(b),
        m.after_view(a).primary(b) == m.primary(a),
{
    if a.page < m.total_pages {
        let n = m.after_view(a);
        let need = m.needed(a);
        let key = m.key_of(a);
        let by_layout = Invalidation::OfLayout(other_layout(a.layout));
        let by_bucket = Invalidation::NotOfBucket(m.bucket_of(a));
        lemma_after_view(m, a, need.left);
        match need.right {
            Some(r) => lemma_after_view(m, a, r),
            None => {},
        }
        assert(n.needed(b) == need);
        assert(n.key_of(b) == key);
        assert(n.all_present(b) == m.all_present(a));
        if m.all_present(a) {
            assert(n.drawable_fits(b) == m.drawable_fits(a));
        }
        // what settling left is not dropped by settling again
        let s0 = surviving(m.textures, by_layout);
        let s1 = surviving(s0, by_bucket);
        lemma_surviving(m.textures, by_layout);
        lemma_surviving(s0, by_bucket);
        lemma_touched(s1, key);
        crate::recency::lemma_members(s1, key, 0);
        let t = n.textures;
        assert forall|i: int| 0 <= i < t.len() implies !by_layout.hits((#[trigger] t[i]).0)
            && !by_bucket.hits(t[i].0) by {
            assert(s1.contains(t[i]));
            let j = choose|j: int| 0 <= j < s1.len() && s1[j] == t[i];
            assert(!by_bucket.hits(s1[j].0));
            assert(s0.contains(s1[j]));
            let k = choose|k: int| 0 <= k < s0.len() && s0[k] == s1[j];
            assert(!by_layout.hits(s0[k].0));
        }
        crate::texture::lemma_surviving_all(t, by_layout);
        crate::texture::lemma_surviving_all(t, by_bucket);
        assert(n.settled(b).textures == t);
        assert(lookup(t, key) == lookup(s1, key));
    }
}

/// Back in single layout, whatever was shown before: once the page in
/// view was asked for, no texture of a spread is resident and at most one
/// texture shows the page, the one of the view; and once that one was
/// uploaded, exactly one does.
pub proof fn lemma_back_in_single(
    m: PipelineModel,
    view: ViewState,
    id: u64,
    source: crate::page::PageModel,
)
    requires
        distinct(m.pages),
        distinct(m.textures),
        m.textures.len() <= m.config.max_textures,
        m.config.max_textures >= 1,
        m.scheduler.wf(),
        view.layout == Layout::Single,
        view.page < m.total_pages,
    ensures
        forall|i: int|
            0 <= i < m.after_view(view).textures.len() ==> (
            #[trigger] m.after_view(view).textures[i]).0.layout() == Layout::Single,
        crate::texture::resident_for(m.after_view(view).textures, view.page) == if has_key(
            m.after_view(view).textures,
            m.key_of(view),
        ) {
            1nat
        } else {
            0nat
        },
        crate::texture::resident_for(
            m.after_view(view).after_upload(m.key_of(view), id, source).textures,
            view.page,
        ) == 1,
        forall|i: int|
            0 <= i < m.after_view(view).after_upload(m.key_of(view), id, source).textures.len()
                ==> (#[trigger] m.after_view(view).after_upload(
                m.key_of(view),
                id,
                source,
            ).textures[i]).0.layout() == Layout::Single,
{
    let n = m.after_view(view);
    let key = m.key_of(view);
    let bucket = m.bucket_of(view);
    let by_layout = Invalidation::OfLayout(other_layout(view.layout));
    let by_bucket = Invalidation::NotOfBucket(bucket);
    assert(key == TextureKey::Single { page: view.page, bucket });
    lemma_after_view(m, view, view.page);
    let s0 = surviving(m.textures, by_layout);
    let s1 = surviving(s0, by_bucket);
    lemma_surviving(m.textures, by_layout);
    lemma_surviving(s0, by_bucket);
    lemma_touched(s1, key);
    crate::recency::lemma_members(s1, key, 0);
    let t = n.textures;
    // what is left are single pages at the rung of the view
    assert forall|i: int| 0 <= i < t.len() implies (#[trigger] t[i]).0.layout() == Layout::Single
        && t[i].0.rung() == bucket by {
        assert(s1.contains(t[i]));
        let j = choose|j: int| 0 <= j < s1.len() && s1[j] == t[i];
        assert(!by_bucket.hits(s1[j].0));
        assert(s0.contains(s1[j]));
        let k = choose|k: int| 0 <= k < s0.len() && s0[k] == s1[j];
        assert(!by_layout.hits(s0[k].0));
    }
    assert(distinct(t));
    assert(t.len() <= m.config.max_textures) by {
        assert(s1.len() <= s0.len() <= m.textures.len());
    }
    crate::texture::lemma_resident_for(t, view.page, key);
    let texture = Texture { id, width: source.width as u32, height: source.height as u32 };
    let u = crate::recency::stored(t, key, texture, n.config.max_textures as int);
    assert(n.after_upload(key, id, source).textures == u);
    crate::recency::lemma_stored(t, key, texture, n.config.max_textures as int);
    crate::recency::lemma_stored_cases(t, key, texture, n.config.max_textures as int);
    assert forall|i: int| 0 <= i < u.len() implies (#[trigger] u[i]).0.layout() == Layout::Single
        && u[i].0.rung() == bucket by {
        if i >= 1 {
            assert(t.contains(u[i]));
            let j = choose|j: int| 0 <= j < t.len() && t[j] == u[i];
            assert(t[j].0.layout() == Layout::Single);
        }
    }
    crate::texture::lemma_resident_for(u, view.page, key);
}

/// What was requested and what was cancelled around the page in view.
pub struct PrefetchHints {
    /// The pages whose decode was asked for ahead of time.
    pub requested: Vec<usize>,
    /// The pages whose prefetch was cancelled.
    pub cancelled: Vec<usize>,
}

/// The answer to a view.
pub struct Drawables {
    /// What to draw.
    pub primary: DrawableState,
    /// The drawable to upload as a texture, if one is missing.
    pub upload: Option<TextureKey>,
    /// The textures to release.
    pub release: Vec<u64>,
    pub hints: PrefetchHints,
}

/// The pipeline.
pub struct Pipeline {
    config: PipelineConfig,
    total_pages: usize,
    standalone: Vec<usize>,
    pages: DecodedPageCache,
    composites: SpreadCache,
    textures: TextureCache,
    scheduler: Scheduler,
    failed_upload: Option<(TextureKey, u8)>,
}

impl View for Pipeline {
    type V = PipelineModel;

    closed spec fn view(&self) -> PipelineModel {
        PipelineModel {
            pages: self.pages.entries(),
            composites: self.composites@,
            textures: self.textures@,
            scheduler: self.scheduler@,
            total_pages: self.total_pages,
            standalone: self.standalone@,
            failed_upload: self.failed_upload,
            config: self.config,
        }
    }
}

impl Pipeline {
    /// What holds of every pipeline between two operations.
    pub closed spec fn wf(&self) -> bool {
        &&& self.config.ok()
        &&& self.pages.wf()
        &&& self.pages.entry_budget() == self.config.max_pages
        &&& self.pages.byte_budget() == self.config.max_bytes
        &&& self.composites.wf()
        &&& self.composites.cap() == self.config.max_composites
        &&& self.textures.wf()
        &&& self.textures.cap() == self.config.max_textures
        &&& self.scheduler.wf()
        &&& disjoint(self.scheduler@.tickets, self.pages.entries())
        &&& composites_ok(self.composites@, self.pages.entries())
    }

    /// What every pipeline keeps to: the caches stay within their bounds,
    /// no key stands twice, no page has two tickets, and no page both is
    /// cached and has a decode waiting or running.
    pub proof fn lemma_invariants(&self)
        requires
            self.wf(),
        ensures
            self@.config.ok(),
            distinct(self@.pages),
            crate::page_cache::within_budgets(
                self@.pages,
                self@.config.max_pages as int,
                self@.config.max_bytes as int,
            ),
            distinct(self@.textures),
            self@.textures.len() <= self@.config.max_textures,
            distinct(self@.composites),
            self@.composites.len() <= self@.config.max_composites,
            composites_ok(self@.composites, self@.pages),
            self@.scheduler.wf(),
            disjoint(self@.scheduler.tickets, self@.pages),
    {
        self.pages.lemma_bounded();
        self.textures.lemma_bounded();
        self.composites.lemma_bounded();
    }

    /// A pipeline without an archive.
    pub fn new(config: PipelineConfig) -> (p: Pipeline)
        requires
            config.ok(),
        ensures
            p.wf(),
            p@.pages.len() == 0,
            p@.composites.len() == 0,
            p@.textures.len() == 0,
            p@.scheduler == SchedulerModel::fresh(),
            p@.total_pages == 0,
            p@.standalone.len() == 0,
            p@.failed_upload is None,
            p@.config == config,
    {
        Pipeline {
            config,
            total_pages: 0,
            standalone: Vec::new(),
            pages: DecodedPageCache::new(config.max_pages, config.max_bytes),
            composites: SpreadCache::new(config.max_composites),
            textures: TextureCache::new(config.max_textures),
            scheduler: Scheduler::new(),
            failed_upload: None,
        }
    }

    /// The number of pages of the archive.
    pub fn total_pages(&self) -> (n: usize)
        ensures
            n == self@.total_pages,
    {
        self.total_pages
    }

    /// The number of decoded pages in the cache.
    pub fn cached_pages(&self) -> (n: usize)
        ensures
            n == self@.pages.len(),
    {
        self.pages.len()
    }

    /// The number of textures in the cache.
    pub fn texture_count(&self) -> (n: usize)
        ensures
            n == self@.textures.len(),
    {
        self.textures.len()
    }

    /// Whether no decode waits or runs.
    pub fn is_idle(&self) -> (b: bool)
        ensures
            b == self@.scheduler.idle(),
    {
        self.scheduler.is_idle()
    }

    /// How far page `i` has come.
    pub fn page_state(&self, i: usize) -> (s: PageState)
        requires
            self.wf(),
        ensures
            s == self@.page_state(i),
    {
        if self.pages.contains(i) {
            PageState::Present
        } else {
            match self.scheduler.failure(i) {
                Some(kind) => PageState::Failed(kind),
                None => PageState::Pending,
            }
        }
    }

    /// The decoded page `i`, if it is cached. Leaves the cache as it is.
    pub fn page(&self, i: usize) -> (r: Option<&DecodedPage>)
        ensures
            r is Some == has_key(self@.pages, i),
            r matches Some(p) ==> Some(*p) == lookup(self@.pages, i),
    {
        self.pages.peek(i)
    }

    /// Begins with a new archive of `total_pages` pages, of which those in
    /// `standalone` are never paired. Every cache is emptied, what waits
    /// to be decoded is dropped, and what is being decoded ends unheard.
    /// Hands back the textures to release.
    pub fn notify_archive_changed(&mut self, total_pages: usize, standalone: Vec<usize>) -> (release:
        Vec<u64>)
        requires
            old(self).wf(),
        ensures
            final(self).wf(),
            final(self)@.pages.len() == 0,
            final(self)@.composites.len() == 0,
            final(self)@.textures.len() == 0,
            final(self)@.scheduler == old(self)@.scheduler.after_archive_change(),
            final(self)@.total_pages == total_pages,
            final(self)@.standalone == standalone@,
            final(self)@.failed_upload is None,
            final(self)@.config == old(self)@.config,
            release@ == ids_of(old(self)@.textures),
    {
        let ghost before = self@;
        self.pages.clear();
        self.composites.clear();
        let release = self.textures.clear();
        self.scheduler.archive_changed();
        self.failed_upload = None;
        self.total_pages = total_pages;
        self.standalone = standalone;
        proof {
            lemma_starts_none(before.scheduler);
            lemma_stays_disjoint(
                before.scheduler.tickets,
                before.pages,
                self.scheduler@.tickets,
                self.pages.entries(),
                None,
            );
        }
        release
    }

    /// Drops the textures of the layout that is no longer shown, and hands
    /// them back to be released.
    pub fn notify_layout_changed(&mut self, layout: Layout) -> (release: Vec<u64>)
        requires
            old(self).wf(),
        ensures
            final(self).wf(),
            final(self)@ == (PipelineModel {
                textures: surviving(
                    old(self)@.textures,
                    Invalidation::OfLayout(other_layout(layout)),
                ),
                ..old(self)@
            }),
            release@ == ids_of(
                dropped(old(self)@.textures, Invalidation::OfLayout(other_layout(layout))),
            ),
    {
        let other = match layout {
            Layout::Single => Layout::Dual,
            Layout::Dual => Layout::Single,
        };
        self.textures.invalidate(Invalidation::OfLayout(other))
    }

    /// Drops the textures that were made for another zoom rung than the
    /// one `zoom` is snapped to, and hands them back to be released.
    pub fn notify_zoom_changed(&mut self, zoom: u32) -> (release: Vec<u64>)
        requires
            old(self).wf(),
        ensures
            final(self).wf(),
            final(self)@ == (PipelineModel {
                textures: surviving(
                    old(self)@.textures,
                    Invalidation::NotOfBucket(
                        old(self)@.config.ladder.rung_of(zoom as int) as u32,
                    ),
                ),
                ..old(self)@
            }),
            release@ == ids_of(
                dropped(
                    old(self)@.textures,
                    Invalidation::NotOfBucket(
                        old(self)@.config.ladder.rung_of(zoom as int) as u32,
                    ),
                ),
            ),
    {
        let bucket = self.config.ladder.bucket(zoom);
        self.textures.invalidate(Invalidation::NotOfBucket(bucket))
    }

    /// Forgets every texture, whose render context is lost, and hands
    /// them back so that their handles are dropped.
    pub fn notify_context_lost(&mut self) -> (release: Vec<u64>)
        requires
            old(self).wf(),
        ensures
            final(self).wf(),
            final(self)@ == (PipelineModel {
                textures: Seq::empty(),
                failed_upload: None,
                ..old(self)@
            }),
            release@ == ids_of(old(self)@.textures),
    {
        self.failed_upload = None;
        let release = self.textures.clear();
        assert(self.textures@ =~= Seq::empty());
        release
    }

    /// Stops the pipeline: every cache is emptied, nothing is scheduled
    /// any more, and what is being decoded ends unheard. Hands back the
    /// textures to release.
    pub fn shutdown(&mut self) -> (release: Vec<u64>)
        requires
            old(self).wf(),
        ensures
            final(self).wf(),
            final(self)@.pages.len() == 0,
            final(self)@.composites.len() == 0,
            final(self)@.textures.len() == 0,
            final(self)@.scheduler == old(self)@.scheduler.after_shutdown(),
            final(self)@.total_pages == old(self)@.total_pages,
            final(self)@.standalone == old(self)@.standalone,
            final(self)@.failed_upload is None,
            final(self)@.config == old(self)@.config,
            release@ == ids_of(old(self)@.textures),
    {
        let ghost before = self@;
        self.pages.clear();
        self.composites.clear();
        let release = self.textures.clear();
        self.scheduler.shutdown();
        self.failed_upload = None;
        proof {
            lemma_starts_none(before.scheduler);
            lemma_stays_disjoint(
                before.scheduler.tickets,
                before.pages,
                self.scheduler@.tickets,
                self.pages.entries(),
                None,
            );
        }
        release
    }

    /// Hands the most urgent waiting decode to a worker.
    pub fn next_job(&mut self) -> (r: Option<Job>)
        requires
            old(self).wf(),
        ensures
            final(self).wf(),
            final(self)@ == (PipelineModel {
                scheduler: old(self)@.scheduler.after_start(),
                ..old(self)@
            }),
            r == old(self)@.scheduler.next_job(),
    {
        let ghost before = self.scheduler@;
        let r = self.scheduler.next_job();
        proof {
            lemma_starts_none(before);
            lemma_stays_disjoint(
                before.tickets,
                self.pages.entries(),
                self.scheduler@.tickets,
                self.pages.entries(),
                None,
            );
        }
        r
    }

    /// Takes the result of a job. A page that was decoded for a ticket
    /// that still stands is cached; the least recently used pages make
    /// room for it.
    pub fn finish_job(&mut self, job: Job, result: Result<DecodedPage, ErrorKind>) -> (r:
        JobOutcome)
        requires
            old(self).wf(),
        ensures
            final(self).wf(),
            final(self)@.scheduler == old(self)@.scheduler.after_complete(
                job.ticket.id,
                job.generation,
                result,
            ),
            final(self)@.textures == old(self)@.textures,
            final(self)@.total_pages == old(self)@.total_pages,
            final(self)@.standalone == old(self)@.standalone,
            final(self)@.failed_upload == old(self)@.failed_upload,
            final(self)@.config == old(self)@.config,
            match old(self)@.scheduler.completion(job.ticket.id, job.generation, result) {
                Completion::Decoded(page, image) => r == JobOutcome::Cached(page)
                    && final(self)@.pages == inserted(
                    old(self)@.pages,
                    page,
                    image,
                    old(self)@.config.max_pages as int,
                    old(self)@.config.max_bytes as int,
                ) && final(self)@.composites == not_showing(old(self)@.composites, page),
                Completion::Failed(page, kind) => r == JobOutcome::Failed(page, kind)
                    && final(self)@.pages == old(self)@.pages && final(self)@.composites
                    == old(self)@.composites,
                Completion::Discarded => r == JobOutcome::Discarded && final(self)@.pages == old(
                    self,
                )@.pages && final(self)@.composites == old(self)@.composites,
            },
    {
        let ghost before = self.scheduler@;
        let ghost cached = self.pages.entries();
        proof {
            self.pages.lemma_bounded();
        }
        let done = self.scheduler.complete(job, result);
        let ghost after = self.scheduler@;
        proof {
            lemma_starts_none(before);
        }
        match done {
            Completion::Decoded(page, image) => {
                proof {
                    lemma_inserted(
                        cached,
                        page,
                        image,
                        self.config.max_pages as int,
                        self.config.max_bytes as int,
                    );
                }
                self.pages.insert(page, image);
                self.drop_composites_of(page, Ghost(cached));
                proof {
                    lemma_stays_disjoint(
                        before.tickets,
                        cached,
                        after.tickets,
                        self.pages.entries(),
                        Some(page),
                    );
                }
                JobOutcome::Cached(page)
            },
            Completion::Failed(page, kind) => {
                proof {
                    lemma_stays_disjoint(before.tickets, cached, after.tickets, cached, None);
                }
                JobOutcome::Failed(page, kind)
            },
            Completion::Discarded => {
                proof {
                    lemma_stays_disjoint(before.tickets, cached, after.tickets, cached, None);
                }
                JobOutcome::Discarded
            },
        }
    }

    /// Forgets the composed spreads that show `page`, whose contents
    /// changed: `before` are the pages that were cached until then.
    fn drop_composites_of(&mut self, page: usize, Ghost(before): Ghost<Seq<(usize, DecodedPage)>>)
        requires
            old(self).composites.wf(),
            composites_ok(old(self).composites@, before),
            forall|o: usize|
                o != page && #[trigger] has_key(old(self).pages.entries(), o) ==> has_key(
                    before,
                    o,
                ) && lookup(old(self).pages.entries(), o) == lookup(before, o),
        ensures
            final(self).composites.wf(),
            final(self).composites.cap() == old(self).composites.cap(),
            final(self).composites@ == not_showing(old(self).composites@, page),
            composites_ok(final(self).composites@, final(self).pages.entries()),
            final(self).config == old(self).config,
            final(self).failed_upload == old(self).failed_upload,
            final(self).total_pages == old(self).total_pages,
            final(self).standalone == old(self).standalone,
            final(self).pages == old(self).pages,
            final(self).textures == old(self).textures,
            final(self).scheduler == old(self).scheduler,
    {
        let ghost now = self.pages.entries();
        let ghost all = self.composites@;
        let keys = self.composites.keys();
        proof {
            self.composites.lemma_bounded();
        }
        let mut j: usize = 0;
        assert(all.take(0) =~= Seq::empty());
        assert(all.skip(0) =~= all);
        while j < keys.len()
            invariant
                j <= keys.len(),
                keys@ == all.map_values(|e: (DualKey, DecodedPage)| e.0),
                self.composites.wf(),
                self.composites.cap() == old(self).composites.cap(),
                self.config == old(self).config,
                self.failed_upload == old(self).failed_upload,
                self.total_pages == old(self).total_pages,
                self.standalone == old(self).standalone,
                self.pages == old(self).pages,
                self.textures == old(self).textures,
                self.scheduler == old(self).scheduler,
                now == self.pages.entries(),
                all == old(self).composites@,
                self.composites@ == not_showing(all.take(j as int), page) + all.skip(j as int),
                forall|o: usize|
                    o != page && #[trigger] has_key(now, o) ==> has_key(before, o) && lookup(
                        now,
                        o,
                    ) == lookup(before, o),
                forall|i: int|
                    0 <= i < not_showing(all.take(j as int), page).len() ==> composite_ok(
                        #[trigger] self.composites@[i],
                        now,
                    ),
                forall|i: int|
                    not_showing(all.take(j as int), page).len() <= i < self.composites@.len()
                        ==> composite_ok(#[trigger] self.composites@[i], before),
            decreases keys.len() - j,
        {
            let ghost cs = self.composites@;
            let ghost next = all.take(j + 1);
            let ghost at = not_showing(all.take(j as int), page).len() as int;
            assert(cs[at] == all[j as int]);
            assert(next.drop_last() =~= all.take(j as int));
            assert(next.last() == all[j as int]);
            let k = keys[j];
            assert(k == all[j as int].0);
            let shows = k.left == page || match k.right {
                Some(r) => r == page,
                None => false,
            };
            if shows {
                proof {
                    self.composites.lemma_bounded();
                    crate::recency::lemma_position(cs, k, at);
                }
                let _ = self.composites.remove(k);
                assert(self.composites@ =~= cs.remove(at));
                assert(self.composites@ =~= not_showing(next, page) + all.skip(j + 1));
                assert forall|i: int| at <= i < self.composites@.len() implies composite_ok(
                    #[trigger] self.composites@[i],
                    before,
                ) by {
                    assert(self.composites@[i] == cs[i + 1]);
                }
                assert forall|i: int| 0 <= i < at implies composite_ok(
                    #[trigger] self.composites@[i],
                    now,
                ) by {
                    assert(self.composites@[i] == cs[i]);
                }
            } else {
                assert(composite_ok(cs[at], before));
                assert(composite_ok(cs[at], now));
                assert(self.composites@ =~= not_showing(next, page) + all.skip(j + 1));
            }
            j += 1;
        }
        assert(all.take(j as int) =~= all);
        assert(self.composites@ =~= not_showing(all, page));
    }

    /// Forgets what was made of page `page`, whose contents changed: the
    /// decoded page, the spreads composed of it and the textures that
    /// show it. Hands back the textures to release.
    pub fn invalidate_page(&mut self, page: usize) -> (release: Vec<u64>)
        requires
            old(self).wf(),
        ensures
            final(self).wf(),
            final(self)@ == (PipelineModel {
                pages: crate::recency::without(old(self)@.pages, page),
                composites: not_showing(old(self)@.composites, page),
                textures: surviving(old(self)@.textures, Invalidation::OfPage(page)),
                ..old(self)@
            }),
            release@ == ids_of(dropped(old(self)@.textures, Invalidation::OfPage(page))),
    {
        let ghost before = self.pages.entries();
        proof {
            self.pages.lemma_bounded();
            crate::recency::lemma_without(before, page);
        }
        let _ = self.pages.remove(page);
        proof {
            lemma_stays_disjoint(
                self.scheduler@.tickets,
                before,
                self.scheduler@.tickets,
                self.pages.entries(),
                None,
            );
        }
        self.drop_composites_of(page, Ghost(before));
        self.textures.invalidate(Invalidation::OfPage(page))
    }

    /// Wants page `i` at `priority`: a cached page is marked as used where
    /// `touch` says so; a page that is neither cached nor failed is
    /// requested. Says how far the page had come.
    fn want(&mut self, i: usize, priority: Priority, touch: bool) -> (s: PageState)
        requires
            old(self).wf(),
        ensures
            final(self).wf(),
            final(self)@ == old(self)@.wanted(i, priority, touch),
            s == old(self)@.page_state(i),
    {
        let ghost before = self.scheduler@;
        let ghost cached = self.pages.entries();
        proof {
            self.pages.lemma_bounded();
            lemma_touched(cached, i);
        }
        let present = if touch {
            self.pages.get(i).is_some()
        } else {
            self.pages.contains(i)
        };
        proof {
            lemma_composites_follow(self.composites@, cached, self.pages.entries());
        }
        if present {
            proof {
                lemma_stays_disjoint(
                    before.tickets,
                    cached,
                    before.tickets,
                    self.pages.entries(),
                    None,
                );
            }
            return PageState::Present;
        }
        match self.scheduler.failure(i) {
            Some(kind) => PageState::Failed(kind),
            None => {
                let _ = self.scheduler.request(i, priority, false);
                proof {
                    lemma_starts_none(before);
                    lemma_stays_disjoint(
                        before.tickets,
                        cached,
                        self.scheduler@.tickets,
                        self.pages.entries(),
                        Some(i),
                    );
                }
                PageState::Pending
            },
        }
    }

    /// The pages that are prefetched around `page`.
    fn prefetch_list(&self, page: usize) -> (list: Vec<usize>)
        requires
            page < self.total_pages,
        ensures
            list@ == prefetch_targets(page, self.total_pages, self.config.prefetch_ahead),
    {
        let total = self.total_pages;
        let ahead = self.config.prefetch_ahead;
        let behind = ahead / 2;
        let mut list: Vec<usize> = Vec::new();
        let count = if ahead <= total - 1 - page {
            ahead
        } else {
            total - 1 - page
        };
        let mut d: usize = 0;
        while d < count
            invariant
                d <= count,
                count <= total - 1 - page,
                page < total,
                list@ == Seq::new(d as nat, |e: int| (page + 1 + e) as usize),
            decreases count - d,
        {
            list.push(page + 1 + d);
            d += 1;
            assert(list@ =~= Seq::new(d as nat, |e: int| (page + 1 + e) as usize));
        }
        let back = if behind <= page {
            behind
        } else {
            page
        };
        let ghost front = list@;
        let mut b: usize = 0;
        while b < back
            invariant
                b <= back,
                back <= page,
                list@ == front + Seq::new(b as nat, |e: int| (page - 1 - e) as usize),
            decreases back - b,
        {
            list.push(page - 1 - b);
            b += 1;
            assert(list@ =~= front + Seq::new(b as nat, |e: int| (page - 1 - e) as usize));
        }
        list
    }

    /// Requests the pages around `page` ahead of time, and says which.
    fn prefetch(&mut self, page: usize) -> (requested: Vec<usize>)
        requires
            old(self).wf(),
            page < old(self)@.total_pages,
        ensures
            final(self).wf(),
            final(self)@ == old(self)@.wanted_all(
                prefetch_targets(
                    page,
                    old(self)@.total_pages,
                    old(self)@.config.prefetch_ahead,
                ),
                Priority::Prefetch,
            ),
            requested@ == old(self)@.request_log(
                prefetch_targets(
                    page,
                    old(self)@.total_pages,
                    old(self)@.config.prefetch_ahead,
                ),
                Priority::Prefetch,
            ),
    {
        let list = self.prefetch_list(page);
        let ghost start = self@;
        let mut requested: Vec<usize> = Vec::new();
        let mut i: usize = 0;
        assert(list@.take(0) =~= Seq::empty());
        while i < list.len()
            invariant
                i <= list.len(),
                self.wf(),
                self@ == start.wanted_all(list@.take(i as int), Priority::Prefetch),
                requested@ == start.request_log(list@.take(i as int), Priority::Prefetch),
            decreases list.len() - i,
        {
            assert(list@.take(i + 1).drop_last() =~= list@.take(i as int));
            assert(list@.take(i + 1).last() == list@[i as int]);
            let state = self.want(list[i], Priority::Prefetch, false);
            match state {
                PageState::Pending => {
                    requested.push(list[i]);
                },
                _ => {},
            }
            i += 1;
        }
        assert(list@.take(i as int) =~= list@);
        requested
    }

    /// Whether the pages `need`, all cached, make a drawable that can be held.
    fn pages_fit(&self, need: DualKey) -> (b: bool)
        requires
            has_key(self.pages.entries(), need.left),
            need.right matches Some(r) ==> has_key(self.pages.entries(), r),
        ensures
            b == match need.right {
                Some(r) => spread_fits(
                    crate::recency::value_of(self.pages.entries(), need.left)@,
                    crate::recency::value_of(self.pages.entries(), r)@,
                ),
                None => true,
            },
    {
        match need.right {
            Some(r) => match (self.pages.peek(need.left), self.pages.peek(r)) {
                (Some(a), Some(b)) => fits(a, b),
                _ => true,
            },
            None => true,
        }
    }

    /// Answers a view: what to draw for it, which drawable to upload,
    /// which textures to release, and what was prefetched and cancelled.
    pub fn drawables_for(&mut self, view: ViewState) -> (r: Drawables)
        requires
            old(self).wf(),
        ensures
            final(self).wf(),
            final(self)@ == old(self)@.after_view(view),
            r.primary == old(self)@.primary(view),
            r.upload == old(self)@.upload_wanted(view),
            r.release@ == if view.page >= old(self)@.total_pages {
                Seq::empty()
            } else {
                old(self)@.settling_releases(view)
            },
            r.hints.requested@ == if view.page >= old(self)@.total_pages {
                Seq::empty()
            } else {
                old(self)@.settled(view).visible(view).drawn(view).request_log(
                    old(self)@.targets(view),
                    Priority::Prefetch,
                )
            },
            r.hints.cancelled@ == if view.page >= old(self)@.total_pages {
                Seq::empty()
            } else {
                crate::scheduler::affected(
                    old(self)@.settled(view).visible(view).drawn(view).wanted_all(
                        old(self)@.targets(view),
                        Priority::Prefetch,
                    ).scheduler.tickets,
                    Rule::Sweep { center: view.page, window: old(self)@.config.keep_window },
                )
            },
    {
        if view.page >= self.total_pages {
            return Drawables {
                primary: DrawableState::Failed(ErrorKind::OutOfRange),
                upload: None,
                release: Vec::new(),
                hints: PrefetchHints { requested: Vec::new(), cancelled: Vec::new() },
            };
        }
        let ghost m0 = self@;
        proof {
            self.pages.lemma_bounded();
        }
        let need = required_pages(view.layout, view.page, self.total_pages, &self.standalone);
        let bucket = self.config.ladder.bucket(view.zoom);
        let key = TextureKey::for_view(view.layout, placed(need, view.direction), bucket);
        // the textures that this view cannot use
        let other = match view.layout {
            Layout::Single => Layout::Dual,
            Layout::Dual => Layout::Single,
        };
        let mut release = self.textures.invalidate(Invalidation::OfLayout(other));
        let mut more = self.textures.invalidate(Invalidation::NotOfBucket(bucket));
        release.append(&mut more);
        let ghost m1 = self@;
        assert(m1 == m0.settled(view));
        // the pages of the view
        let left = self.want(need.left, Priority::Visible, true);
        let ghost mid = self@;
        let right = match need.right {
            Some(r) => self.want(r, Priority::Visible, true),
            None => PageState::Present,
        };
        let ghost m2 = self@;
        assert(m2 == m1.visible(view));
        proof {
            self.pages.lemma_bounded();
            lemma_visible(m0, view);
        }
        let (primary, upload) = match (left, right) {
            (PageState::Failed(kind), _) => (DrawableState::Failed(kind), None),
            (_, PageState::Failed(kind)) => (DrawableState::Failed(kind), None),
            (PageState::Pending, _) => (DrawableState::Pending, None),
            (_, PageState::Pending) => (DrawableState::Pending, None),
            (PageState::Present, PageState::Present) => {
                if !self.pages_fit(need) {
                    (DrawableState::Failed(ErrorKind::OutOfMemory), None)
                } else {
                    match self.textures.lookup(key) {
                        Some(t) => (DrawableState::Ready(t), None),
                        None => if self.has_given_up(&key) {
                            (DrawableState::Failed(ErrorKind::TextureUpload), None)
                        } else {
                            (DrawableState::Pending, Some(key))
                        },
                    }
                }
            },
        };
        let ghost m3 = self@;
        assert(m3 == m2.drawn(view));
        let requested = self.prefetch(view.page);
        let ghost m4 = self@;
        let ghost swept_from = self.scheduler@;
        let cancelled = self.scheduler.cancel_far_prefetches(view.page, self.config.keep_window);
        proof {
            lemma_wanted_all(m3, m0.targets(view), Priority::Prefetch);
            lemma_starts_none(swept_from);
            lemma_stays_disjoint(
                swept_from.tickets,
                self.pages.entries(),
                self.scheduler@.tickets,
                self.pages.entries(),
                None,
            );
        }
        Drawables { primary, upload, release, hints: PrefetchHints { requested, cancelled } }
    }

    /// The image of a drawable, as specifications see it: the page itself
    /// for a single page, the spread of its pages for a pair; none while a
    /// page is not cached or the spread cannot be held.
    pub open spec fn source_of(pages: Seq<(usize, DecodedPage)>, key: TextureKey) -> Option<
        crate::page::PageModel,
    > {
        match key {
            TextureKey::Single { page, .. } => match lookup(pages, page) {
                Some(p) => Some(p@),
                None => None,
            },
            TextureKey::Dual { pages: pair, .. } => match pair.right {
                None => match lookup(pages, pair.left) {
                    Some(p) => Some(p@),
                    None => None,
                },
                Some(r) => if has_key(pages, pair.left) && has_key(pages, r) && spread_fits(
                    crate::recency::value_of(pages, pair.left)@,
                    crate::recency::value_of(pages, r)@,
                ) {
                    Some(
                        spread(
                            crate::recency::value_of(pages, pair.left)@,
                            crate::recency::value_of(pages, r)@,
                        ),
                    )
                } else {
                    None
                },
            },
        }
    }

    /// The image to upload for the drawable `key`: the cached page, or the
    /// spread composed of the two cached pages. A spread is composed once
    /// and kept for the next time.
    pub fn upload_source(&mut self, key: TextureKey) -> (r: Option<&DecodedPage>)
        requires
            old(self).wf(),
        ensures
            final(self).wf(),
            match r {
                Some(p) => Some(p@) == Self::source_of(old(self)@.pages, key),
                None => Self::source_of(old(self)@.pages, key) is None,
            },
            match (key, r) {
                (TextureKey::Dual { pages: DualKey { left, right: Some(right) }, .. }, Some(p)) => {
                    let pair = DualKey { left, right: Some(right) };
                    &&& final(self)@ == (PipelineModel {
                        composites: old(self)@.spreads_with(pair, *p),
                        ..old(self)@
                    })
                    &&& lookup(final(self)@.composites, pair) == Some(*p)
                },
                _ => final(self)@ == old(self)@,
            },
    {
        let pair = match key {
            TextureKey::Single { page, .. } => {
                return self.pages.peek(page);
            },
            TextureKey::Dual { pages, .. } => pages,
        };
        let right = match pair.right {
            Some(r) => r,
            None => {
                return self.pages.peek(pair.left);
            },
        };
        let ghost cached = self.pages.entries();
        let ghost cs = self.composites@;
        proof {
            self.composites.lemma_bounded();
        }
        match (self.pages.peek(pair.left), self.pages.peek(right)) {
            (Some(a), Some(b)) => {
                if !fits(a, b) {
                    return None;
                }
                if self.composites.touch(pair) {
                    proof {
                        crate::recency::lemma_members(cs, pair, 0);
                        lemma_touched(cs, pair);
                        assert forall|i: int|
                            0 <= i < self.composites@.len() implies composite_ok(
                            #[trigger] self.composites@[i],
                            cached,
                        ) by {
                            let e = self.composites@[i];
                            assert(cs.contains(e));
                            let j = choose|j: int| 0 <= j < cs.len() && cs[j] == e;
                            assert(composite_ok(cs[j], cached));
                        }
                        assert(composite_ok(self.composites@[0], cached));
                    }
                } else {
                    match compose(a, b) {
                        Some(c) => {
                            proof {
                                crate::recency::lemma_stored(
                                    cs,
                                    pair,
                                    c,
                                    self.composites.cap() as int,
                                );
                            }
                            self.composites.put(pair, c);
                            proof {
                                assert forall|i: int|
                                    0 <= i < self.composites@.len() implies composite_ok(
                                    #[trigger] self.composites@[i],
                                    cached,
                                ) by {
                                    let e = self.composites@[i];
                                    if i >= 1 {
                                        assert(cs.contains(e));
                                        let j = choose|j: int| 0 <= j < cs.len() && cs[j] == e;
                                        assert(composite_ok(cs[j], cached));
                                    }
                                }
                            }
                        },
                        None => {
                            return None;
                        },
                    }
                }
                self.composites.peek(pair)
            },
            _ => None,
        }
    }

    /// Whether the upload of the drawable `key` is no longer tried.
    fn has_given_up(&self, key: &TextureKey) -> (b: bool)
        ensures
            b == self@.given_up(*key),
    {
        match &self.failed_upload {
            Some((k, n)) => k.same(key) && *n
                >= self.config.upload_attempts,
            None => false,
        }
    }

    /// The size in pixels of the image of the drawable `key`.
    fn source_size(&self, key: TextureKey) -> (r: Option<(u32, u32)>)
        ensures
            match r {
                Some((w, h)) => Self::source_of(self@.pages, key) matches Some(m) && m.width == w
                    && m.height == h,
                None => Self::source_of(self@.pages, key) is None,
            },
    {
        let pair = match key {
            TextureKey::Single { page, .. } => DualKey { left: page, right: None },
            TextureKey::Dual { pages, .. } => pages,
        };
        match pair.right {
            None => match self.pages.peek(pair.left) {
                Some(p) => {
                    proof {
                        use_type_invariant(p);
                    }
                    Some((p.width(), p.height()))
                },
                None => None,
            },
            Some(right) => match (self.pages.peek(pair.left), self.pages.peek(right)) {
                (Some(a), Some(b)) => {
                    proof {
                        use_type_invariant(a);
                        use_type_invariant(b);
                    }
                    if fits(a, b) {
                        let h = if a.height() >= b.height() {
                            a.height()
                        } else {
                            b.height()
                        };
                        Some((a.width() + b.width(), h))
                    } else {
                        None
                    }
                },
                _ => None,
            },
        }
    }

    /// Records that the texture numbered `id` was uploaded for the
    /// drawable `key`; the texture is kept with the size of the image it
    /// was made from. Hands back the textures to release: the one `key`
    /// had before, and the least recently used one where the cache was
    /// full. Where the pages of the drawable are no longer cached, nothing
    /// is kept and `id` itself is handed back.
    pub fn texture_uploaded(&mut self, key: TextureKey, id: u64) -> (release: Vec<u64>)
        requires
            old(self).wf(),
        ensures
            final(self).wf(),
            match Self::source_of(old(self)@.pages, key) {
                Some(source) => final(self)@ == old(self)@.after_upload(key, id, source)
                    && release@ == ids_of(
                    crate::recency::displaced(
                        old(self)@.textures,
                        key,
                        old(self)@.config.max_textures as int,
                    ),
                ),
                None => final(self)@ == old(self)@ && release@ == seq![id],
            },
    {
        let (width, height) = match self.source_size(key) {
            Some(size) => size,
            None => {
                let mut release: Vec<u64> = Vec::new();
                release.push(id);
                return release;
            },
        };
        let forget = match &self.failed_upload {
            Some((k, _)) => k.same(&key),
            None => false,
        };
        if forget {
            self.failed_upload = None;
        }
        self.textures.store(key, Texture { id, width, height })
    }

    /// Replaces the pages that are never paired, after the manifest was
    /// edited. The decoded pages and the composed spreads stay. Of the
    /// textures, exactly those go that show a page whose mark differs
    /// between the old pages and the new; they are handed back to be
    /// released. Every other texture stays as it is.
    pub fn notify_hints_changed(&mut self, standalone: Vec<usize>) -> (release: Vec<u64>)
        requires
            old(self).wf(),
        ensures
            final(self).wf(),
            final(self)@ == (PipelineModel {
                standalone: standalone@,
                textures: kept_marks(old(self)@.textures, old(self)@.standalone, standalone@),
                ..old(self)@
            }),
            release@ == ids_of(
                dropped_marks(old(self)@.textures, old(self)@.standalone, standalone@),
            ),
    {
        let release = self.textures.invalidate_remarked(&self.standalone, &standalone);
        self.standalone = standalone;
        release
    }

    /// Asks for page `page` again, as visible: a page that failed is tried
    /// once more, a page that waits or runs keeps its ticket, a cached
    /// page needs nothing.
    pub fn retry(&mut self, page: usize) -> (r: RequestOutcome)
        requires
            old(self).wf(),
        ensures
            final(self).wf(),
            final(self)@ == (PipelineModel {
                scheduler: old(self)@.scheduler.after_request(
                    page,
                    Priority::Visible,
                    has_key(old(self)@.pages, page),
                ),
                ..old(self)@
            }),
            r == old(self)@.scheduler.request_outcome(page, has_key(old(self)@.pages, page)),
    {
        let ghost before = self.scheduler@;
        let cached = self.pages.contains(page);
        let r = self.scheduler.request(page, Priority::Visible, cached);
        proof {
            lemma_starts_none(before);
            if cached {
                assert(self.scheduler@ == before);
            }
            lemma_stays_disjoint(
                before.tickets,
                self.pages.entries(),
                self.scheduler@.tickets,
                self.pages.entries(),
                if cached {
                    None
                } else {
                    Some(page)
                },
            );
        }
        r
    }

    /// Records that an upload of the drawable `key` failed. The upload is
    /// asked for again with the next view, until it has failed as often in
    /// a row as the configuration allows; from then on the drawable is
    /// shown as failed.
    pub fn texture_upload_failed(&mut self, key: TextureKey)
        requires
            old(self).wf(),
        ensures
            final(self).wf(),
            final(self)@ == old(self)@.after_upload_failure(key),
    {
        let count: u8 = match &self.failed_upload {
            Some((k, n)) => if k.same(&key) {
                if *n < u8::MAX {
                    *n + 1
                } else {
                    *n
                }
            } else {
                1
            },
            None => 1,
        };
        self.failed_upload = Some((key, count));
    }
}

} // verus!
