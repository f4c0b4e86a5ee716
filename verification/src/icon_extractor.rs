//! Icons: from a captured bitmap to an embeddable image, and the cache that
//! keeps each image for the life of the process.

use vstd::hash_map::StringHashMap;
use vstd::hash_set::StringHashSet;
use vstd::prelude::*;
use vstd::string::StringExecFns;

verus! {

/// Side of the square bitmap that an icon is drawn into, in pixels.
pub const ICON_SIZE: u32 = 32;

/// Bytes in one captured bitmap: four for each pixel.
pub const ICON_BYTES: usize = 4096;

/// Why no image could be made for a path.
#[derive(Debug, Clone, PartialEq, Eq)]
pub enum IconError {
    /// The system had no icon for the path.
    NoIconHandle,
    /// The captured bitmap holds fewer bytes than a full icon.
    InvalidBitmap,
    /// The bitmap could not be written as an image; with the encoder's
    /// words.
    EncodingFailed(String),
}

/// The kinds of `IconError`.
pub enum IconErrorKind {
    NoIconHandle,
    InvalidBitmap,
    EncodingFailed,
}

impl View for IconError {
    type V = IconErrorKind;

    open spec fn view(&self) -> IconErrorKind {
        match *self {
            IconError::NoIconHandle => IconErrorKind::NoIconHandle,
            IconError::InvalidBitmap => IconErrorKind::InvalidBitmap,
            IconError::EncodingFailed(_) => IconErrorKind::EncodingFailed,
        }
    }
}

impl IconError {
    /// A sentence for a log line.
    pub fn message(&self) -> (text: String)
        ensures
            text@ == match *self {
                IconError::NoIconHandle => "Failed to get icon handle"@,
                IconError::InvalidBitmap => "Failed to create image"@,
                IconError::EncodingFailed(detail) => "Image write error: "@ + detail@,
            },
    {
        match self {
            IconError::NoIconHandle => "Failed to get icon handle".to_owned(),
            IconError::InvalidBitmap => "Failed to create image".to_owned(),
            IconError::EncodingFailed(detail) => {
                let mut text = "Image write error: ".to_owned();
                text.append(detail.as_str());
                text
            },
        }
    }
}

/// The error type of the `image` crate.
#[verifier::external_type_specification]
#[verifier::external_body]
pub struct ExImageError(image::ImageError);

/// The PNG file that the `image` crate writes for a bitmap of `width` by
/// `height` pixels, four bytes (red, green, blue, alpha) each, read from the
/// front of `pixels`; `None` where it reports an error.
pub uninterp spec fn png_rgba8(width: u32, height: u32, pixels: Seq<u8>) -> Option<Seq<u8>>;

/// The text that the `base64` crate's `STANDARD` engine makes of `bytes`.
pub uninterp spec fn base64_standard(bytes: Seq<u8>) -> Seq<char>;

/// Builds an `image::RgbaImage` over a copy of `pixels` with
/// `ImageBuffer::from_raw` and writes it into memory with
/// `ImageBuffer::write_to` in `ImageOutputFormat::Png`. `from_raw` takes any
/// buffer of at least `4 * width * height` bytes, which the caller provides.
/// The bytes written are not described here, only named: they are
/// `png_rgba8` of the arguments, which is `None` where the encoder reports
/// an error.
#[verifier::external_body]
pub(crate) fn encode_png(width: u32, height: u32, pixels: &Vec<u8>) -> (png: Result<
    Vec<u8>,
    image::ImageError,
>)
    requires
        4 * width * height <= pixels@.len(),
    ensures
        match png {
            Ok(bytes) => png_rgba8(width, height, pixels@) == Some(bytes@),
            Err(_) => png_rgba8(width, height, pixels@) is None,
        },
{
    let image = match image::RgbaImage::from_raw(width, height, pixels.clone()) {
        Some(image) => image,
        None => return Err(
            image::ImageError::Parameter(
                image::error::ParameterError::from_kind(
                    image::error::ParameterErrorKind::DimensionMismatch,
                ),
            ),
        ),
    };
    let mut buffer = std::io::Cursor::new(Vec::new());
    image.write_to(&mut buffer, image::ImageOutputFormat::Png)?;
    Ok(buffer.into_inner())
}

/// The words of an error of the `image` crate, as its `Display` gives them.
/// Nothing is stated of them.
#[verifier::external_body]
pub(crate) fn error_text(error: &image::ImageError) -> (text: String) {
    error.to_string()
}

/// The length of the padded base64 text for `len` bytes fits in `usize`.
pub open spec fn base64_fits(len: nat) -> bool {
    (len + 2) / 3 * 4 <= usize::MAX
}

/// Calls `Engine::encode` on `base64::engine::general_purpose::STANDARD`.
/// The crate computes the length of the text first and panics where that
/// overflows `usize`, which `requires` leaves out. The text is not described
/// here, only named: it is `base64_standard` of the bytes.
#[verifier::external_body]
pub(crate) fn encode_base64(bytes: &Vec<u8>) -> (text: String)
    requires
        base64_fits(bytes@.len()),
    ensures
        text@ == base64_standard(bytes@),
{
    base64::Engine::encode(&base64::engine::general_purpose::STANDARD, bytes)
}

/// The data URI that embeds a PNG file given in base64.
pub open spec fn data_url_of(encoded: Seq<char>) -> Seq<char> {
    "data:image/png;base64,"@ + encoded
}

/// What becomes of a PNG file: its data URI, unless it is too long to encode.
pub open spec fn png_payload(png: Seq<u8>) -> Result<Seq<char>, IconErrorKind> {
    if base64_fits(png.len()) {
        Ok(data_url_of(base64_standard(png)))
    } else {
        Err(IconErrorKind::EncodingFailed)
    }
}

/// What becomes of a captured bitmap: `None` stands for a path without an
/// icon, `Some` holds the bytes of the bitmap, row by row.
pub open spec fn icon_payload(raster: Option<Seq<u8>>) -> Result<Seq<char>, IconErrorKind> {
    match raster {
        None => Err(IconErrorKind::NoIconHandle),
        Some(pixels) => if pixels.len() < ICON_BYTES {
            Err(IconErrorKind::InvalidBitmap)
        } else {
            match png_rgba8(ICON_SIZE, ICON_SIZE, pixels) {
                None => Err(IconErrorKind::EncodingFailed),
                Some(png) => png_payload(png),
            }
        },
    }
}

/// The outcome of an extraction, with the payload as a sequence of
/// characters and the error by its kind.
pub open spec fn outcome_view(outcome: Result<String, IconError>) -> Result<
    Seq<char>,
    IconErrorKind,
> {
    match outcome {
        Ok(payload) => Ok(payload@),
        Err(e) => Err(e@),
    }
}

/// The cache and the answer after an extraction for `path` ended in
/// `outcome`: a payload is stored and returned, a failure leaves the cache
/// as it was, so that a later request tries again.
pub open spec fn after_extraction(
    cache: Map<Seq<char>, Seq<char>>,
    path: Seq<char>,
    outcome: Result<Seq<char>, IconErrorKind>,
) -> (Map<Seq<char>, Seq<char>>, Option<Seq<char>>) {
    match outcome {
        Ok(payload) => (cache.insert(path, payload), Some(payload)),
        Err(_) => (cache, None),
    }
}

/// The data URI for a PNG file given in base64.
pub fn data_url(encoded: &str) -> (url: String)
    ensures
        url@ == data_url_of(encoded@),
{
    let mut url = "data:image/png;base64,".to_owned();
    url.append(encoded);
    url
}

/// The payload for a PNG file: its bytes in base64, as a data URI.
pub fn payload_from_png(png: &Vec<u8>) -> (payload: Result<String, IconError>)
    ensures
        outcome_view(payload) == png_payload(png@),
{
    let chunks: usize = png.len() / 3 + if png.len() % 3 == 0 { 0 } else { 1 };
    if chunks > usize::MAX / 4 {
        return Err(IconError::EncodingFailed("the image is too large for base64".to_owned()));
    }
    let encoded = encode_base64(png);
    Ok(data_url(encoded.as_str()))
}

/// Icon payloads by canonical path. An entry, once made, stays.
pub struct IconCache {
    cache: StringHashMap<String>,
}

impl View for IconCache {
    type V = Map<Seq<char>, Seq<char>>;

    closed spec fn view(&self) -> Map<Seq<char>, Seq<char>> {
        Map::new(
            |path: Seq<char>| self.cache@.contains_key(path),
            |path: Seq<char>| self.cache@[path]@,
        )
    }
}

impl IconCache {
    /// An empty cache.
    pub fn new() -> (cache: Self)
        ensures
            cache@ == Map::<Seq<char>, Seq<char>>::empty(),
    {
        let cache = IconCache { cache: StringHashMap::new() };
        assert(cache@ =~= Map::<Seq<char>, Seq<char>>::empty());
        cache
    }

    /// The payload stored for `app_path`, if there is one.
    pub fn cached(&self, app_path: &str) -> (icon: Option<String>)
        ensures
            icon.deep_view() == if self@.contains_key(app_path@) {
                Some(self@[app_path@])
            } else {
                None
            },
    {
        match self.cache.get(app_path) {
            Some(payload) => Some(payload.clone()),
            None => None,
        }
    }

    /// Turns what the system drew for a path into a payload: a PNG file of
    /// `ICON_SIZE` by `ICON_SIZE` pixels, in base64, as a data URI.
    pub fn extract_icon_as_base64(raster: &Option<Vec<u8>>) -> (payload: Result<String, IconError>)
        ensures
            outcome_view(payload) == icon_payload(raster.deep_view()),
    {
        match raster {
            None => Err(IconError::NoIconHandle),
            Some(pixels) => {
                assert(raster.deep_view() == Some(pixels@)) by {
                    assert(pixels.deep_view() =~= pixels@);
                }
                if pixels.len() < ICON_BYTES {
                    return Err(IconError::InvalidBitmap);
                }
                match encode_png(ICON_SIZE, ICON_SIZE, pixels) {
                    Err(error) => Err(IconError::EncodingFailed(error_text(&error))),
                    Ok(png) => payload_from_png(&png),
                }
            },
        }
    }

    /// Takes in the outcome of an extraction for `app_path` and gives the
    /// answer to the request that started it.
    pub fn record(&mut self, app_path: &str, outcome: Result<String, IconError>) -> (icon: Option<
        String,
    >)
        ensures
            (final(self)@, icon.deep_view()) == after_extraction(
                old(self)@,
                app_path@,
                outcome_view(outcome),
            ),
    {
        match outcome {
            Ok(payload) => {
                self.cache.insert(app_path.to_owned(), payload.clone());
                assert(self@ =~= old(self)@.insert(app_path@, payload@));
                Some(payload)
            },
            Err(_) => None,
        }
    }

    /// The icon for `app_path`: the stored payload where there is one, with
    /// no call of `capture`; else what `capture` draws, encoded, stored and
    /// returned. A failure is not stored.
    pub fn get_icon_data<F: FnOnce(&str) -> Option<Vec<u8>>>(
        &mut self,
        app_path: &str,
        capture: F,
    ) -> (icon: Option<String>)
        requires
            capture.requires((app_path,)),
        ensures
            old(self)@.contains_key(app_path@) ==> final(self)@ == old(self)@ && icon.deep_view()
                == Some(old(self)@[app_path@]),
            !old(self)@.contains_key(app_path@) ==> exists|raster: Option<Vec<u8>>|
                capture.ensures((app_path,), raster) && (final(self)@, icon.deep_view())
                    == after_extraction(old(self)@, app_path@, icon_payload(raster.deep_view())),
    {
        match self.cached(app_path) {
            Some(payload) => Some(payload),
            None => {
                let raster = capture(app_path);
                let outcome = Self::extract_icon_as_base64(&raster);
                self.record(app_path, outcome)
            },
        }
    }
}

/// What a requester of an icon does next.
#[derive(Debug)]
pub enum IconStep {
    /// The icon is stored: here it is.
    Ready(String),
    /// Another requester is extracting the icon: wait for the outcome.
    Wait,
    /// Nobody is: extract the icon, then report the outcome.
    Extract,
}

/// An `IconStep` with its payload as a sequence of characters.
pub enum IconStepView {
    Ready(Seq<char>),
    Wait,
    Extract,
}

impl View for IconStep {
    type V = IconStepView;

    open spec fn view(&self) -> IconStepView {
        match *self {
            IconStep::Ready(payload) => IconStepView::Ready(payload@),
            IconStep::Wait => IconStepView::Wait,
            IconStep::Extract => IconStepView::Extract,
        }
    }
}

/// The state of the icon resolver: what is stored, and the paths whose
/// icons are being extracted.
pub struct ResolverState {
    pub cache: Map<Seq<char>, Seq<char>>,
    pub pending: Set<Seq<char>>,
}

/// What happens to the resolver: an icon is requested, or an extraction
/// that it asked for has ended.
pub enum IconEvent {
    Request { path: Seq<char> },
    Completion { path: Seq<char>, outcome: Result<Seq<char>, IconErrorKind> },
}

/// What a requester of the icon for `path` is told.
pub open spec fn directive(state: ResolverState, path: Seq<char>) -> IconStepView {
    if state.cache.contains_key(path) {
        IconStepView::Ready(state.cache[path])
    } else if state.pending.contains(path) {
        IconStepView::Wait
    } else {
        IconStepView::Extract
    }
}

/// The state after a request: a path that the requester is to extract is
/// pending from then on.
pub open spec fn after_request(state: ResolverState, path: Seq<char>) -> ResolverState {
    if directive(state, path) is Extract {
        ResolverState { cache: state.cache, pending: state.pending.insert(path) }
    } else {
        state
    }
}

/// The state after the extraction for `path` ended in `outcome`: the path
/// is pending no more, and a payload is stored.
pub open spec fn after_completion(
    state: ResolverState,
    path: Seq<char>,
    outcome: Result<Seq<char>, IconErrorKind>,
) -> ResolverState {
    ResolverState {
        cache: after_extraction(state.cache, path, outcome).0,
        pending: state.pending.remove(path),
    }
}

/// The state after one event.
pub open spec fn after_event(state: ResolverState, event: IconEvent) -> ResolverState {
    match event {
        IconEvent::Request { path } => after_request(state, path),
        IconEvent::Completion { path, outcome } => after_completion(state, path, outcome),
    }
}

/// The state after a sequence of events.
pub open spec fn after_events(state: ResolverState, events: Seq<IconEvent>) -> ResolverState
    decreases events.len(),
{
    if events.len() == 0 {
        state
    } else {
        after_event(after_events(state, events.drop_last()), events.last())
    }
}

/// The event is a request for `path` that is answered with `Extract`.
pub open spec fn starts_extraction(
    state: ResolverState,
    event: IconEvent,
    path: Seq<char>,
) -> bool {
    event == (IconEvent::Request { path }) && directive(state, path) is Extract
}

/// How many extractions for `path` the events start.
pub open spec fn extractions(state: ResolverState, events: Seq<IconEvent>, path: Seq<char>) -> nat
    decreases events.len(),
{
    if events.len() == 0 {
        0
    } else {
        let earlier = events.drop_last();
        extractions(state, earlier, path) + if starts_extraction(
            after_events(state, earlier),
            events.last(),
            path,
        ) {
            1nat
        } else {
            0nat
        }
    }
}

/// The event is the end of an extraction for `path`.
pub open spec fn completes(event: IconEvent, path: Seq<char>) -> bool {
    match event {
        IconEvent::Request { .. } => false,
        IconEvent::Completion { path: ended, .. } => ended == path,
    }
}

/// No extraction for `path` ends among the events.
pub open spec fn none_completes(events: Seq<IconEvent>, path: Seq<char>) -> bool {
    forall|i: int| 0 <= i < events.len() ==> !completes(#[trigger] events[i], path)
}

/// No stored path is pending.
pub open spec fn pending_are_missing(state: ResolverState) -> bool {
    forall|path: Seq<char>| state.pending.contains(path) ==> !state.cache.contains_key(path)
}

/// Requests and completions keep stored paths and pending paths apart.
pub proof fn lemma_event_keeps_apart(state: ResolverState, event: IconEvent)
    requires
        pending_are_missing(state),
    ensures
        pending_are_missing(after_event(state, event)),
{
}

/// Single flight: as long as no extraction for a path ends, at most one is
/// started for it, however many requests arrive and whatever happens for
/// other paths; and once one is started the path is pending.
pub proof fn lemma_single_flight(state: ResolverState, events: Seq<IconEvent>, path: Seq<char>)
    requires
        none_completes(events, path),
    ensures
        extractions(state, events, path) <= 1,
        extractions(state, events, path) == 1 ==> after_events(state, events).pending.contains(
            path,
        ),
        state.pending.contains(path) ==> extractions(state, events, path) == 0 && after_events(
            state,
            events,
        ).pending.contains(path),
    decreases events.len(),
{
    if events.len() > 0 {
        let earlier = events.drop_last();
        assert forall|i: int| 0 <= i < earlier.len() implies !completes(
            #[trigger] earlier[i],
            path,
        ) by {
            assert(earlier[i] == events[i]);
        }
        lemma_single_flight(state, earlier, path);
        assert(!completes(events[events.len() - 1], path));
    }
}

/// Of the requests for a path that is neither stored nor pending, the
/// first starts the one extraction.
pub proof fn lemma_first_request_extracts(
    state: ResolverState,
    events: Seq<IconEvent>,
    path: Seq<char>,
)
    requires
        none_completes(events, path),
        directive(state, path) is Extract,
        events.len() > 0,
        events[0] == (IconEvent::Request { path }),
    ensures
        extractions(state, events, path) == 1,
    decreases events.len(),
{
    let earlier = events.drop_last();
    if earlier.len() == 0 {
        assert(extractions(state, earlier, path) == 0);
        assert(after_events(state, earlier) == state);
        assert(events.last() == events[0]);
    } else {
        assert(earlier[0] == events[0]);
        assert forall|i: int| 0 <= i < earlier.len() implies !completes(
            #[trigger] earlier[i],
            path,
        ) by {
            assert(earlier[i] == events[i]);
        }
        lemma_first_request_extracts(state, earlier, path);
        lemma_single_flight(state, earlier, path);
    }
}

/// A stored icon stays: as long as no extraction for its path ends, it is
/// not replaced, and no extraction for the path is started.
pub proof fn lemma_stored_icon_stays(state: ResolverState, events: Seq<IconEvent>, path: Seq<char>)
    requires
        state.cache.contains_key(path),
        none_completes(events, path),
    ensures
        after_events(state, events).cache.contains_key(path),
        after_events(state, events).cache[path] == state.cache[path],
        extractions(state, events, path) == 0,
    decreases events.len(),
{
    if events.len() > 0 {
        let earlier = events.drop_last();
        assert forall|i: int| 0 <= i < earlier.len() implies !completes(
            #[trigger] earlier[i],
            path,
        ) by {
            assert(earlier[i] == events[i]);
        }
        lemma_stored_icon_stays(state, earlier, path);
        assert(!completes(events[events.len() - 1], path));
    }
}

/// Shared outcome: once the extraction for a path has ended in a payload,
/// every later request for the path is answered with that payload, and none
/// starts an extraction.
pub proof fn lemma_payload_is_shared(
    state: ResolverState,
    path: Seq<char>,
    payload: Seq<char>,
    later: Seq<IconEvent>,
)
    requires
        none_completes(later, path),
    ensures
        directive(
            after_events(after_completion(state, path, Ok(payload)), later),
            path,
        ) == IconStepView::Ready(payload),
        extractions(after_completion(state, path, Ok(payload)), later, path) == 0,
{
    lemma_stored_icon_stays(after_completion(state, path, Ok(payload)), later, path);
}

/// The icon cache with the bookkeeping that lets many requesters share
/// one extraction for each path.
pub struct IconResolver {
    cache: IconCache,
    pending: StringHashSet,
}

impl View for IconResolver {
    type V = ResolverState;

    closed spec fn view(&self) -> ResolverState {
        ResolverState { cache: self.cache@, pending: self.pending@ }
    }
}

impl IconResolver {
    /// A resolver with nothing stored and nothing pending.
    pub fn new() -> (resolver: Self)
        ensures
            resolver@ == (ResolverState { cache: Map::empty(), pending: Set::empty() }),
    {
        IconResolver { cache: IconCache::new(), pending: StringHashSet::new() }
    }

    /// Takes in a request for the icon of `app_path` and tells the
    /// requester what to do.
    pub fn request(&mut self, app_path: &str) -> (step: IconStep)
        ensures
            step@ == directive(old(self)@, app_path@),
            final(self)@ == after_request(old(self)@, app_path@),
    {
        match self.cache.cached(app_path) {
            Some(payload) => IconStep::Ready(payload),
            None => {
                if self.pending.contains(app_path) {
                    IconStep::Wait
                } else {
                    self.pending.insert(app_path.to_owned());
                    IconStep::Extract
                }
            },
        }
    }

    /// Takes in the outcome of the extraction for `app_path` and gives the
    /// answer for the requester that extracted and for all that waited.
    pub fn complete(&mut self, app_path: &str, outcome: Result<String, IconError>) -> (icon: Option<
        String,
    >)
        ensures
            final(self)@ == after_completion(old(self)@, app_path@, outcome_view(outcome)),
            icon.deep_view() == after_extraction(
                old(self)@.cache,
                app_path@,
                outcome_view(outcome),
            ).1,
    {
        self.pending.remove(app_path);
        self.cache.record(app_path, outcome)
    }
}

} // verus!
