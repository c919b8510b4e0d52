use crate::raster::{blend, clear, crop, fill_rect, overlay, Color, Raster};
use crate::slippy::{lemma_spans_what_shows, lemma_viewport, Viewport, ViewportView, TILE_SIZE};
use crate::text::{decimal, expand, extension, extension_of, fill_placeholders, hex_upper, to_hex_upper};
use sha2::Digest;
use vstd::prelude::*;
use vstd::string::StringSliceAdditionalSpecFns;

verus! {

/// Name by which the tile server learns who asks.
pub const USER_AGENT: &'static str = "derive.rs 0.1 contact maps@sushinara.net";

/// Where the tile cache lies below the user's cache directory, outermost
/// directory first.
pub const CACHE_PATH: [&'static str; 2] = ["derive.rs", "tiles"];

/// The SHA-256 digest of `data`.
pub uninterp spec fn sha256(data: Seq<u8>) -> Seq<u8>;

/// Calls `sha2::Sha256::digest`. The contract claims that the bytes handed
/// back are the SHA-256 digest of `data`.
#[verifier::external_body]
fn sha256_digest(data: &[u8]) -> (digest: Vec<u8>)
    ensures
        digest@ == sha256(data@),
{
    sha2::Sha256::digest(data).to_vec()
}

/// The host that `http_req` reads in the address `text`; `None` where it
/// reads no address in `text`, or one that names no host.
pub uninterp spec fn uri_host(text: Seq<char>) -> Option<Seq<char>>;

/// Calls `http_req::uri::Uri::try_from` and, on the address that it gives,
/// `Uri::host`. The contract claims that the host handed back, or its
/// absence, is what these two give for `text`. Text with a character outside
/// ASCII is kept away: the parser cuts the text at byte offsets.
#[verifier::external_body]
fn host_of(text: &str) -> (host: Option<String>)
    requires
        text.is_ascii(),
    ensures
        host.is_some() == uri_host(text@).is_some(),
        host matches Some(h) ==> uri_host(text@) == Some(h@),
{
    match http_req::uri::Uri::try_from(text) {
        Ok(uri) => match uri.host() {
            Some(host) => Some(host.to_owned()),
            None => None,
        },
        Err(_) => None,
    }
}

/// Why a basemap could not be had.
#[derive(Debug)]
pub enum Error {
    /// The address pattern gives no address that a tile can be fetched from.
    Template { pattern: String },
    /// The tile server answered `url` with a status that is no success.
    Status { url: String, reason: String },
    /// No answer came from the tile server.
    Transport { cause: String },
    /// The downloaded tile could not be put into the cache.
    Cache { cause: String },
    /// Something was reported that the fetch was not waiting for.
    Unexpected,
    /// The tiles handed over are not one for each tile of the viewport.
    TileCount,
}

impl Error {
    /// What a reader is told of the error.
    pub open spec fn spec_message(self) -> Seq<char> {
        match self {
            Error::Template { pattern } => "malformed URL template: "@ + pattern@,
            Error::Status { url, reason } => "failed to get "@ + url@ + ": "@ + reason@,
            Error::Transport { cause } => cause@,
            Error::Cache { cause } => cause@,
            Error::Unexpected => "unexpected event during tile fetch"@,
            Error::TileCount => "wrong number of tiles"@,
        }
    }

    /// What a reader is told of the error.
    pub fn message(&self) -> (text: String)
        ensures
            text@ == self.spec_message(),
    {
        match self {
            Error::Template { pattern } => {
                let mut text = "malformed URL template: ".to_owned();
                text.append(pattern.as_str());
                text
            },
            Error::Status { url, reason } => {
                let mut text = "failed to get ".to_owned();
                text.append(url.as_str());
                text.append(": ");
                text.append(reason.as_str());
                text
            },
            Error::Transport { cause } => cause.clone(),
            Error::Cache { cause } => cause.clone(),
            Error::Unexpected => "unexpected event during tile fetch".to_owned(),
            Error::TileCount => "wrong number of tiles".to_owned(),
        }
    }
}

/// One tile to fetch: where the server has it and under which name the cache
/// keeps it.
#[derive(Debug)]
pub struct TileRequest {
    pub url: String,
    pub file: String,
}

/// The address of the tile in column `x`, row `y` at `zoom`: the pattern with
/// its placeholders filled.
pub open spec fn tile_url(pattern: Seq<char>, zoom: u8, x: u32, y: u32) -> Seq<char> {
    expand(pattern, decimal(zoom as nat), decimal(x as nat), decimal(y as nat))
}

/// Whether tiles can be fetched with `pattern`: the address of the tile in
/// column 0, row 0 at zoom level 0 is plain ASCII, and `http_req` reads in it
/// an address that names a host.
pub open spec fn usable_pattern(pattern: Seq<char>) -> bool {
    let url = tile_url(pattern, 0, 0, 0);
    vstd::utf8::is_ascii_chars(url) && uri_host(url) is Some
}

/// The name of the cache entry for `url`: the digest of the address in
/// capital hexadecimal digits, then a `.` and the extension of the address
/// where it has one that is not empty.
pub open spec fn cache_file(url: Seq<char>) -> Seq<char> {
    let key = hex_upper(sha256(vstd::utf8::encode_utf8(url)));
    match extension(url) {
        Some(ext) => if ext.len() > 0 {
            key + seq!['.'] + ext
        } else {
            key
        },
        None => key,
    }
}

/// Whether an HTTP status reports success.
pub open spec fn is_success(status: u16) -> bool {
    200 <= status < 300
}

/// What a tile fetch is waiting for.
#[derive(Clone, Copy, PartialEq, Eq, Structural, Debug)]
pub enum FetchState {
    /// Whether the cache holds the tile.
    Probing,
    /// The server's answer.
    Requesting,
    /// The outcome of writing the tile into the cache.
    Storing,
}

/// What happened while a tile fetch was waiting.
#[derive(Debug)]
pub enum FetchEvent {
    /// The cache holds a readable entry.
    Cached,
    /// The cache holds no entry, or one that cannot be read.
    NotCached,
    /// The server answered.
    Answered { status: u16, reason: String, body: Vec<u8> },
    /// The request failed before any answer.
    Unanswered { cause: String },
    /// The entry is in the cache, whole.
    Stored,
    /// The entry could not be written; nothing of it is left.
    NotStored { cause: String },
}

/// What a tile fetch asks for next.
#[derive(Debug)]
pub enum FetchAction {
    /// Look for the cache entry `file`.
    Probe { file: String },
    /// Ask the server for `url`, naming [`USER_AGENT`] as the client.
    Get { url: String },
    /// Put `body` into the cache as `file`: written under another name
    /// first and moved into place once complete.
    Store { file: String, body: Vec<u8> },
    /// The fetch is over: the cache entry that holds the tile, or the error.
    Done(Result<String, Error>),
}

/// The action that `event` calls for while the fetch of `request` is in
/// `state`.
pub open spec fn next_action(request: TileRequest, state: FetchState, event: FetchEvent)
    -> FetchAction {
    match (state, event) {
        (FetchState::Probing, FetchEvent::Cached) => FetchAction::Done(Ok(request.file)),
        (FetchState::Probing, FetchEvent::NotCached) => FetchAction::Get { url: request.url },
        (FetchState::Requesting, FetchEvent::Answered { status, reason, body }) => if is_success(
            status,
        ) {
            FetchAction::Store { file: request.file, body }
        } else {
            FetchAction::Done(Err(Error::Status { url: request.url, reason }))
        },
        (FetchState::Requesting, FetchEvent::Unanswered { cause }) => FetchAction::Done(
            Err(Error::Transport { cause }),
        ),
        (FetchState::Storing, FetchEvent::Stored) => FetchAction::Done(Ok(request.file)),
        (FetchState::Storing, FetchEvent::NotStored { cause }) => FetchAction::Done(
            Err(Error::Cache { cause }),
        ),
        _ => FetchAction::Done(Err(Error::Unexpected)),
    }
}

impl FetchAction {
    /// What the fetch waits for once the action is under way; `None` when
    /// the fetch is over.
    pub open spec fn spec_awaits(self) -> Option<FetchState> {
        match self {
            FetchAction::Probe { .. } => Some(FetchState::Probing),
            FetchAction::Get { .. } => Some(FetchState::Requesting),
            FetchAction::Store { .. } => Some(FetchState::Storing),
            FetchAction::Done(_) => None,
        }
    }

    /// What the fetch waits for once the action is under way; `None` when
    /// the fetch is over.
    pub fn awaits(&self) -> (state: Option<FetchState>)
        ensures
            state == self.spec_awaits(),
    {
        match self {
            FetchAction::Probe { .. } => Some(FetchState::Probing),
            FetchAction::Get { .. } => Some(FetchState::Requesting),
            FetchAction::Store { .. } => Some(FetchState::Storing),
            FetchAction::Done(_) => None,
        }
    }
}

impl TileRequest {
    /// The first action of a fetch: to look into the cache.
    pub fn begin(&self) -> (action: FetchAction)
        ensures
            action == (FetchAction::Probe { file: self.file }),
    {
        FetchAction::Probe { file: self.file.clone() }
    }

    /// Decides what `event` calls for while the fetch is in `state`.
    pub fn step(&self, state: FetchState, event: FetchEvent) -> (action: FetchAction)
        ensures
            action == next_action(*self, state, event),
    {
        match state {
            FetchState::Probing => match event {
                FetchEvent::Cached => FetchAction::Done(Ok(self.file.clone())),
                FetchEvent::NotCached => FetchAction::Get { url: self.url.clone() },
                _ => FetchAction::Done(Err(Error::Unexpected)),
            },
            FetchState::Requesting => match event {
                FetchEvent::Answered { status, reason, body } => {
                    if 200 <= status && status < 300 {
                        FetchAction::Store { file: self.file.clone(), body }
                    } else {
                        FetchAction::Done(Err(Error::Status { url: self.url.clone(), reason }))
                    }
                },
                FetchEvent::Unanswered { cause } => FetchAction::Done(
                    Err(Error::Transport { cause }),
                ),
                _ => FetchAction::Done(Err(Error::Unexpected)),
            },
            FetchState::Storing => match event {
                FetchEvent::Stored => FetchAction::Done(Ok(self.file.clone())),
                FetchEvent::NotStored { cause } => FetchAction::Done(Err(Error::Cache { cause })),
                _ => FetchAction::Done(Err(Error::Unexpected)),
            },
        }
    }
}

/// A fetch writes into the cache only after the server has answered with
/// success: no other state and no other event leads to a `Store`.
pub proof fn lemma_store_only_after_success(
    request: TileRequest,
    state: FetchState,
    event: FetchEvent,
)
    requires
        next_action(request, state, event) is Store,
    ensures
        state == FetchState::Requesting,
        event matches FetchEvent::Answered { status, body, .. } && is_success(status) && next_action(
            request,
            state,
            event,
        ) == (FetchAction::Store { file: request.file, body }),
{
}

/// A fetch that the server refuses ends at once with the error, and the next
/// fetch of the same tile that finds nothing in the cache asks the server
/// again.
pub proof fn lemma_refused_fetch_asks_again(request: TileRequest, status: u16, reason: String, body: Vec<u8>)
    requires
        !is_success(status),
    ensures
        next_action(request, FetchState::Requesting, FetchEvent::Answered { status, reason, body })
            == FetchAction::Done(Err(Error::Status { url: request.url, reason })),
        next_action(request, FetchState::Probing, FetchEvent::NotCached) is Get,
{
}

/// Knows where the tiles of a map are to be had.
#[derive(Debug)]
pub struct Downloader {
    url_pattern: String,
}

impl Downloader {
    /// The address pattern that the downloader was made with.
    pub closed spec fn pattern(&self) -> Seq<char> {
        self.url_pattern@
    }

    /// A downloader for the tiles at `url_pattern`, in which `{z}`, `{x}`
    /// and `{y}` stand for zoom level, column and row. A pattern that is not
    /// usable is refused at once: see [`usable_pattern`].
    pub fn new(url_pattern: &str) -> (made: Result<Downloader, Error>)
        ensures
            made is Ok <==> usable_pattern(url_pattern@),
            made matches Ok(d) ==> d.pattern() == url_pattern@,
            made matches Err(e) ==> e matches Error::Template { pattern } && pattern@
                == url_pattern@,
    {
        let url = fill_placeholders(url_pattern, 0, 0, 0);
        if !url.as_str().is_ascii() {
            return Err(Error::Template { pattern: url_pattern.to_owned() });
        }
        match host_of(url.as_str()) {
            Some(_) => Ok(Downloader { url_pattern: url_pattern.to_owned() }),
            None => Err(Error::Template { pattern: url_pattern.to_owned() }),
        }
    }

    /// The request for the tile in column `x`, row `y` at `zoom`.
    pub fn request(&self, zoom: u8, x: u32, y: u32) -> (request: TileRequest)
        ensures
            request.url@ == tile_url(self.pattern(), zoom, x, y),
            request.file@ == cache_file(request.url@),
    {
        let url = fill_placeholders(self.url_pattern.as_str(), zoom, x, y);
        let digest = sha256_digest(url.as_str().as_bytes());
        let mut file = to_hex_upper(&digest);
        match extension_of(url.as_str()) {
            Some(ext) => {
                if ext.as_str().unicode_len() > 0 {
                    file.push('.');
                    file.append(ext.as_str());
                }
            },
            None => {},
        }
        TileRequest { url, file }
    }
}

/// The tint layer's pixel: black, `tint` opaque.
pub open spec fn tint_color(tint: u8) -> Color {
    Color { r: 0, g: 0, b: 0, a: tint }
}

/// What the tiles alone show at column `x`, row `y` of the viewport, before
/// any tint. `tiles` holds the viewport's tiles column after column, each
/// column from its first row to its last. A pixel shows its tile's pixel laid
/// over transparency; where the tile handed over is too small to reach it,
/// the pixel stays transparent.
pub open spec fn base_pixel(view: ViewportView, tiles: Seq<Raster>, x: int, y: int) -> Color {
    let wx = view.offset.0 + x;
    let wy = view.offset.1 + y;
    let column = wx / (TILE_SIZE as int);
    let row = wy / (TILE_SIZE as int);
    let tile = tiles[column * view.rows() + row]@;
    if tile.contains(wx % (TILE_SIZE as int), wy % (TILE_SIZE as int)) {
        blend(clear(), tile.at(wx % (TILE_SIZE as int), wy % (TILE_SIZE as int)))
    } else {
        clear()
    }
}

/// What the mosaic shows at column `x`, row `y` once the tiles before column
/// `column`, and in that column those before row `row`, have been laid down.
pub open spec fn laid_pixel(
    view: ViewportView,
    tiles: Seq<Raster>,
    x: int,
    y: int,
    column: int,
    row: int,
) -> Color {
    let c = (view.offset.0 + x) / (TILE_SIZE as int);
    let r = (view.offset.1 + y) / (TILE_SIZE as int);
    if c < column || (c == column && r < row) {
        base_pixel(view, tiles, x, y)
    } else {
        clear()
    }
}

/// Where a tile goes: the part of it that shows, and where on the canvas the
/// part's top left corner comes to lie.
#[derive(Clone, Copy, PartialEq, Eq, Structural, Debug)]
pub struct Placement {
    pub crop_x: u32,
    pub crop_y: u32,
    pub crop_width: u32,
    pub crop_height: u32,
    pub x: u64,
    pub y: u64,
}

/// Along one axis: where the visible part of the tile `index` tiles after
/// the first begins inside the tile, how long it is, and where it begins on
/// the canvas, for a viewport that begins `offset` pixels into its first tile.
pub open spec fn span(index: int, offset: int) -> (int, int, int) {
    if index == 0 {
        (offset, TILE_SIZE - offset, 0)
    } else {
        (0, TILE_SIZE as int, index * TILE_SIZE - offset)
    }
}

/// The placement of the tile `column` columns and `row` rows after the
/// viewport's first tile. A tile of the first column or row loses what lies
/// before the viewport's corner; every canvas pixel then shows the tile pixel
/// that lies `offset` further right and down, counted from the first tile's
/// corner.
pub fn placement(column: u32, row: u32, offset: (u32, u32)) -> (p: Placement)
    requires
        offset.0 < TILE_SIZE,
        offset.1 < TILE_SIZE,
    ensures
        (p.crop_x as int, p.crop_width as int, p.x as int) == span(column as int, offset.0 as int),
        (p.crop_y as int, p.crop_height as int, p.y as int) == span(row as int, offset.1 as int),
{
    let (crop_x, crop_width, x) = if column == 0 {
        (offset.0, TILE_SIZE - offset.0, 0u64)
    } else {
        (0u32, TILE_SIZE, column as u64 * TILE_SIZE as u64 - offset.0 as u64)
    };
    let (crop_y, crop_height, y) = if row == 0 {
        (offset.1, TILE_SIZE - offset.1, 0u64)
    } else {
        (0u32, TILE_SIZE, row as u64 * TILE_SIZE as u64 - offset.1 as u64)
    };
    Placement { crop_x, crop_y, crop_width, crop_height, x, y }
}

/// Whether the canvas pixel in column `x`, row `y` lies in the place of the
/// tile `column` columns and `row` rows after the viewport's first tile.
pub open spec fn in_place(column: int, row: int, offset: (int, int), x: int, y: int) -> bool {
    let (_, width, left) = span(column, offset.0);
    let (_, height, top) = span(row, offset.1);
    left <= x < left + width && top <= y < top + height
}

/// Every pixel of the canvas lies in the place of exactly one tile: the tile
/// that holds the pixel once the viewport's offset is added. The places of
/// two different tiles share no pixel.
pub proof fn lemma_places_tile_the_canvas(
    column: int,
    row: int,
    offset: (int, int),
    x: int,
    y: int,
)
    requires
        0 <= column,
        0 <= row,
        0 <= offset.0 < TILE_SIZE,
        0 <= offset.1 < TILE_SIZE,
        0 <= x,
        0 <= y,
    ensures
        in_place(column, row, offset, x, y) <==> column == (offset.0 + x) / (TILE_SIZE as int)
            && row == (offset.1 + y) / (TILE_SIZE as int),
{
}

/// A basemap: the tiles of a map provider under one viewport.
#[derive(Debug)]
pub struct Basemap {
    map: Viewport,
    getter: Downloader,
}

impl Basemap {
    /// The viewport that the basemap fills.
    pub closed spec fn viewport(&self) -> ViewportView {
        self.map@
    }

    /// The address pattern of the tiles.
    pub closed spec fn pattern(&self) -> Seq<char> {
        self.getter.pattern()
    }

    /// The viewport of a basemap is well formed.
    pub open spec fn wf(&self) -> bool {
        self.viewport().wf()
    }

    /// A basemap for `map`, with its tiles at the addresses that `url_pattern`
    /// gives. A pattern that is not usable is refused at once: see
    /// [`usable_pattern`].
    pub fn from(map: Viewport, url_pattern: &str) -> (made: Result<Basemap, Error>)
        ensures
            made is Ok <==> usable_pattern(url_pattern@),
            made matches Ok(b) ==> b.viewport() == map@ && b.pattern() == url_pattern@,
            made matches Err(e) ==> e matches Error::Template { pattern } && pattern@
                == url_pattern@,
    {
        match Downloader::new(url_pattern) {
            Ok(getter) => Ok(Basemap { map, getter }),
            Err(e) => Err(e),
        }
    }

    /// The request for the tile in column `x`, row `y` at the viewport's zoom
    /// level.
    pub fn request(&self, x: u32, y: u32) -> (request: TileRequest)
        requires
            self.wf(),
        ensures
            request.url@ == tile_url(self.pattern(), self.viewport().zoom as u8, x, y),
            request.file@ == cache_file(request.url@),
    {
        self.getter.request(self.map.zoom(), x, y)
    }

    /// The number of tiles that the viewport touches.
    pub fn tile_count(&self) -> (count: u128)
        requires
            self.wf(),
        ensures
            count == self.viewport().columns() * self.viewport().rows(),
    {
        let first = self.map.tile_offsets();
        let last = self.map.last_tile();
        let columns: u128 = last.0 as u128 - first.0 as u128 + 1;
        let rows: u128 = last.1 as u128 - first.1 as u128 + 1;
        assert(columns * rows <= 0x1_0000_0000 * 0x1_0000_0000) by (nonlinear_arith)
            requires
                columns <= 0x1_0000_0000,
                rows <= 0x1_0000_0000,
        ;
        columns * rows
    }

    /// The tiles that the basemap is made of, in the order in which
    /// `as_image` takes them: column after column, each from its first row to
    /// its last.
    pub open spec fn spec_tiles(&self) -> Seq<(u32, u32)> {
        let view = self.viewport();
        Seq::new(
            (view.columns() * view.rows()) as nat,
            |k: int| ((view.first_tile.0 + k / view.rows()) as u32, (view.first_tile.1 + k % view.rows()) as u32),
        )
    }

    /// The columns and rows of the tiles to fetch for `as_image`, in its
    /// order.
    pub fn tiles(&self) -> (list: Vec<(u32, u32)>)
        requires
            self.wf(),
            self.viewport().columns() * self.viewport().rows() <= usize::MAX,
        ensures
            list@ == self.spec_tiles(),
    {
        let first = self.map.tile_offsets();
        let last = self.map.last_tile();
        let ghost view = self.viewport();
        let columns: u64 = last.0 as u64 - first.0 as u64 + 1;
        let rows: u64 = last.1 as u64 - first.1 as u64 + 1;
        let mut list: Vec<(u32, u32)> = Vec::new();
        let mut c: u64 = 0;
        while c < columns
            invariant
                self.wf(),
                view == self.viewport(),
                columns == view.columns(),
                rows == view.rows(),
                columns * rows <= usize::MAX,
                first.0 == view.first_tile.0,
                first.1 == view.first_tile.1,
                c <= columns,
                list@.len() == c * rows,
                forall|k: int| 0 <= k < list@.len() ==> list@[k] == #[trigger] self.spec_tiles()[k],
            decreases columns - c,
        {
            let mut r: u64 = 0;
            while r < rows
                invariant
                    self.wf(),
                    view == self.viewport(),
                    columns == view.columns(),
                    rows == view.rows(),
                    columns * rows <= usize::MAX,
                    first.0 == view.first_tile.0,
                    first.1 == view.first_tile.1,
                    c < columns,
                    r <= rows,
                    list@.len() == c * rows + r,
                    forall|k: int| 0 <= k < list@.len() ==> list@[k] == #[trigger] self.spec_tiles()[k],
                decreases rows - r,
            {
                proof {
                    lemma_tile_index(c as int, r as int, columns as int, rows as int);
                }
                list.push(((first.0 as u64 + c) as u32, (first.1 as u64 + r) as u32));
                r += 1;
            }
            proof {
                assert(c * rows + rows == (c + 1) * rows) by (nonlinear_arith);
            }
            c += 1;
        }
        proof {
            assert(list@ =~= self.spec_tiles());
        }
        list
    }

    /// Whether the viewport is small enough to be drawn: its pixels fit the
    /// memory and its sides the signed coordinates of the drawing routines.
    pub open spec fn drawable(&self) -> bool {
        let view = self.viewport();
        &&& 4 * (view.size.0 * view.size.1) <= usize::MAX
        &&& view.size.0 <= i32::MAX
        &&& view.size.1 <= i32::MAX
    }

    /// Whether `as_image` can draw the viewport: see [`Basemap::drawable`].
    pub fn can_draw(&self) -> (yes: bool)
        requires
            self.wf(),
        ensures
            yes == self.drawable(),
    {
        let (width, height) = self.map.pixel_size();
        assert(width * height <= 0xffff_ffff * 0xffff_ffff) by (nonlinear_arith)
            requires
                width <= 0xffff_ffff,
                height <= 0xffff_ffff,
        ;
        let bytes: u128 = 4u128 * (width as u128 * height as u128);
        bytes <= usize::MAX as u128 && width <= i32::MAX as u32 && height <= i32::MAX as u32
    }

    /// Lays the tiles side by side under the viewport and darkens the result:
    /// a black layer, `tint` opaque, goes over the whole. `tiles` holds one
    /// raster for each tile of [`Basemap::tiles`], in that order; with any
    /// other number of tiles nothing is drawn.
    pub fn as_image(&self, tiles: &Vec<Raster>, tint: u8) -> (made: Result<Raster, Error>)
        requires
            self.wf(),
            self.drawable(),
            forall|k: int| 0 <= k < tiles@.len() ==> (#[trigger] tiles@[k]).wf(),
        ensures
            made.is_ok() <==> tiles@.len() == self.viewport().columns() * self.viewport().rows(),
            made matches Err(e) ==> e is TileCount,
            made matches Ok(img) ==> {
                &&& img.wf()
                &&& img@.width == self.viewport().size.0
                &&& img@.height == self.viewport().size.1
                &&& forall|x: int, y: int| #[trigger]
                    img@.contains(x, y) ==> img@.at(x, y) == blend(
                        base_pixel(self.viewport(), tiles@, x, y),
                        tint_color(tint),
                    )
            },
    {
        let (width, height) = self.map.pixel_size();
        let offset = self.map.pixel_offsets();
        let first = self.map.tile_offsets();
        let last = self.map.last_tile();
        let ghost view = self.viewport();
        proof {
            lemma_viewport(view);
        }
        let columns: u64 = last.0 as u64 - first.0 as u64 + 1;
        let rows: u64 = last.1 as u64 - first.1 as u64 + 1;
        assert(columns * rows <= 0x1_0000_0000 * 0x1_0000_0000) by (nonlinear_arith)
            requires
                columns <= 0x1_0000_0000,
                rows <= 0x1_0000_0000,
        ;
        if tiles.len() as u128 != columns as u128 * rows as u128 {
            return Err(Error::TileCount);
        }
        let mut canvas = Raster::new(width, height);
        proof {
            assert forall|x: int, y: int| #[trigger] canvas@.contains(x, y) implies canvas@.at(x, y)
                == clear() by {
                crate::raster::lemma_offset_bounds(canvas@, x, y);
            }
        }
        let mut c: u64 = 0;
        let mut k: usize = 0;
        while c < columns
            invariant
                view.wf(),
                view == self.viewport(),
                columns == view.columns(),
                rows == view.rows(),
                tiles@.len() == columns * rows,
                columns * rows <= usize::MAX,
                forall|i: int| 0 <= i < tiles@.len() ==> (#[trigger] tiles@[i]).wf(),
                offset.0 == view.offset.0,
                offset.1 == view.offset.1,
                canvas.wf(),
                canvas@.width == width == view.size.0,
                canvas@.height == height == view.size.1,
                c <= columns,
                k == c * rows,
                forall|x: int, y: int| #[trigger]
                    canvas@.contains(x, y) ==> canvas@.at(x, y) == laid_pixel(
                        view,
                        tiles@,
                        x,
                        y,
                        c as int,
                        0,
                    ),
            decreases columns - c,
        {
            let mut r: u64 = 0;
            while r < rows
                invariant
                    view.wf(),
                    view == self.viewport(),
                    columns == view.columns(),
                    rows == view.rows(),
                    tiles@.len() == columns * rows,
                    columns * rows <= usize::MAX,
                    forall|i: int| 0 <= i < tiles@.len() ==> (#[trigger] tiles@[i]).wf(),
                    offset.0 == view.offset.0,
                    offset.1 == view.offset.1,
                    canvas.wf(),
                    canvas@.width == width == view.size.0,
                    canvas@.height == height == view.size.1,
                    c < columns,
                    r <= rows,
                    k == c * rows + r,
                    forall|x: int, y: int| #[trigger]
                        canvas@.contains(x, y) ==> canvas@.at(x, y) == laid_pixel(
                            view,
                            tiles@,
                            x,
                            y,
                            c as int,
                            r as int,
                        ),
                decreases rows - r,
            {
                proof {
                    lemma_tile_index(c as int, r as int, columns as int, rows as int);
                }
                let p = placement(c as u32, r as u32, offset);
                let ghost before = canvas@;
                let tile = &tiles[k];
                let part = crop(tile, p.crop_x, p.crop_y, p.crop_width, p.crop_height);
                overlay(&mut canvas, &part, p.x as u32, p.y as u32);
                proof {
                    assert forall|x: int, y: int| #[trigger]
                        canvas@.contains(x, y) implies canvas@.at(x, y) == laid_pixel(
                        view,
                        tiles@,
                        x,
                        y,
                        c as int,
                        r + 1,
                    ) by {
                        assert(before.contains(x, y));
                        if part@.contains(x - p.x, y - p.y) {
                            assert(part@.at(x - p.x, y - p.y) == tile@.at(
                                x - p.x + p.crop_x,
                                y - p.y + p.crop_y,
                            ));
                        }
                    }
                }
                k += 1;
                r += 1;
            }
            proof {
                assert(c * rows + rows == (c + 1) * rows) by (nonlinear_arith);
                assert forall|x: int, y: int| #[trigger]
                    canvas@.contains(x, y) implies canvas@.at(x, y) == laid_pixel(
                    view,
                    tiles@,
                    x,
                    y,
                    c + 1,
                    0,
                ) by {
                    assert((view.offset.1 + y) / (TILE_SIZE as int) < rows);
                }
            }
            c += 1;
        }
        let ghost mosaic = canvas@;
        let mut layer = Raster::new(width, height);
        fill_rect(&mut layer, 0, 0, width, height, Color { r: 0, g: 0, b: 0, a: tint });
        overlay(&mut canvas, &layer, 0, 0);
        proof {
            assert forall|x: int, y: int| #[trigger] canvas@.contains(x, y) implies canvas@.at(x, y)
                == blend(base_pixel(view, tiles@, x, y), tint_color(tint)) by {
                assert(mosaic.contains(x, y));
                assert(layer@.contains(x, y));
            }
        }
        Ok(canvas)
    }
}

/// The tiles that a basemap lists are the least set that covers its
/// viewport: a tile is listed where the picture shows a pixel of it, and
/// nowhere else.
pub proof fn lemma_lists_what_shows(basemap: Basemap, tx: u32, ty: u32)
    requires
        basemap.wf(),
    ensures
        basemap.spec_tiles().contains((tx, ty)) <==> basemap.viewport().shows(tx as int, ty as int),
{
    let view = basemap.viewport();
    let list = basemap.spec_tiles();
    let rows = view.rows();
    let columns = view.columns();
    lemma_viewport(view);
    lemma_spans_what_shows(view, tx as int, ty as int);
    if view.spans(tx as int, ty as int) {
        let c = tx - view.first_tile.0;
        let r = ty - view.first_tile.1;
        lemma_tile_index(c, r, columns, rows);
        assert(list[c * rows + r] == (tx, ty));
    }
    if list.contains((tx, ty)) {
        let k = choose|k: int| 0 <= k < list.len() && list[k] == (tx, ty);
        lemma_tile_fits(k, columns, rows);
    }
}

/// A basemap lists none of its tiles twice.
pub proof fn lemma_lists_each_tile_once(basemap: Basemap)
    requires
        basemap.wf(),
    ensures
        basemap.spec_tiles().no_duplicates(),
{
    let view = basemap.viewport();
    let list = basemap.spec_tiles();
    let rows = view.rows();
    lemma_viewport(view);
    assert forall|i: int, j: int| 0 <= i < list.len() && 0 <= j < list.len() && list[i] == list[j] implies i
        == j by {
        lemma_tile_fits(i, view.columns(), rows);
        lemma_tile_fits(j, view.columns(), rows);
        vstd::arithmetic::div_mod::lemma_fundamental_div_mod(i, rows);
        vstd::arithmetic::div_mod::lemma_fundamental_div_mod(j, rows);
    }
}

/// The tile with the number `k` lies in one of the columns and one of the
/// rows.
pub proof fn lemma_tile_fits(k: int, columns: int, rows: int)
    requires
        0 < rows,
        0 <= k < columns * rows,
    ensures
        0 <= k / rows < columns,
        0 <= k % rows < rows,
{
    vstd::arithmetic::div_mod::lemma_fundamental_div_mod(k, rows);
    vstd::arithmetic::div_mod::lemma_mod_bound(k, rows);
    assert(0 <= k / rows < columns) by (nonlinear_arith)
        requires
            0 <= k < columns * rows,
            k == rows * (k / rows) + k % rows,
            0 <= k % rows < rows,
    ;
}

/// Tiles are numbered column after column: the tile in column `c`, row `r`
/// of a grid of `columns` by `rows` has the number `c * rows + r`, which is
/// below the count of tiles and gives `c` and `r` back.
pub proof fn lemma_tile_index(c: int, r: int, columns: int, rows: int)
    requires
        0 <= c < columns,
        0 <= r < rows,
    ensures
        0 <= c * rows + r < columns * rows,
        (c * rows + r) / rows == c,
        (c * rows + r) % rows == r,
{
    assert(0 <= c * rows <= (columns - 1) * rows) by (nonlinear_arith)
        requires
            0 <= c <= columns - 1,
            0 < rows,
    ;
    assert((columns - 1) * rows + rows == columns * rows) by (nonlinear_arith);
    vstd::arithmetic::div_mod::lemma_fundamental_div_mod_converse(c * rows + r, rows, c, r);
}

} // verus!
