//! The state of the window, and how it changes.
use vstd::prelude::*;
use vstd::string::{StrSliceExecFns, StringExecFns};

use crate::bedrock::{y_values, BedrockType, Block};
use crate::grid::{
    fill_unknown, grid_blocks, grid_fits, layer_has_data, make_grid, resize_grid, rotate_grid_ccw,
    rotate_grid_cw, CellState,
};
use crate::rotations::generate_rotations;
use crate::spiral::{MAX_INDEX, MAX_SHELL};
use crate::text::{
    area_label_from_l, fmt_coord_count, format_duration, parse_i32, parse_i64, parse_usize,
    push_decimal, push_signed,
};

verus! {

/// What the search is doing, as the window shows it.
#[derive(Debug)]
pub enum SearchStatus {
    Idle,
    /// Searching; carries the label of the area examined so far.
    Searching(String),
    /// Cancelled; carries how many coordinates were found, and after how many milliseconds.
    Cancelled(usize, u64),
    /// Run to completion; carries how many coordinates were found, and after how many milliseconds.
    Found(usize, u64),
    Error(String),
}

/// A search status with its texts as sequences of characters.
pub enum StatusView {
    Idle,
    Searching(Seq<char>),
    Cancelled(usize, u64),
    Found(usize, u64),
    Error(Seq<char>),
}

impl View for SearchStatus {
    type V = StatusView;

    open spec fn view(&self) -> StatusView {
        match self {
            SearchStatus::Idle => StatusView::Idle,
            SearchStatus::Searching(area) => StatusView::Searching(area@),
            SearchStatus::Cancelled(n, millis) => StatusView::Cancelled(*n, *millis),
            SearchStatus::Found(n, millis) => StatusView::Found(*n, *millis),
            SearchStatus::Error(e) => StatusView::Error(e@),
        }
    }
}

/// What is known of the graphics processor. It is looked for when its use is first asked for.
#[derive(Clone, Copy, PartialEq, Eq, Debug, Structural)]
pub enum GpuInitState {
    /// Nobody has looked yet.
    NotProbed,
    /// Looking for one now.
    Probing,
    /// One was found and is ready.
    Ready,
    /// One was found, but was given back when its use was switched off.
    Capable,
    /// There is none. Nobody looks again.
    Unavailable,
}

/// The state of the window.
pub struct App {
    pub seed: String,
    pub center_x: String,
    pub center_z: String,
    pub bedrock_type: BedrockType,
    pub grid_cols: usize,
    pub grid_rows: usize,
    pub grid_cols_str: String,
    pub grid_rows_str: String,
    /// The layer that is shown.
    pub grid_y_idx: usize,
    /// Where the top left corner of the grid lies.
    pub grid_offset_x: String,
    pub grid_offset_z: String,
    pub grid_cells: Vec<Vec<Vec<CellState>>>,
    /// The search looks for the pattern in all four directions.
    pub search_all_rotations: bool,
    pub dup_count_str: String,
    /// How many matches are wanted; 0 stands for no limit.
    pub dup_count: usize,
    /// The matches of the current or last search, in the order in which they were found.
    pub found_coords: Vec<(i32, i32)>,
    pub status: SearchStatus,
    /// A worker was started and has not reported its end.
    pub worker_running: bool,
    /// The zoom level in tenths.
    pub ui_scale: u32,
    /// The shell of the spiral that the label of the area stands for.
    pub area_label_l: i64,
    /// The spiral index from which on a larger shell is needed.
    pub area_label_next_thresh: i64,
    pub gpu_init: GpuInitState,
    pub use_gpu: bool,
    /// The graphics processor is to be used as soon as it is found.
    pub pending_gpu_enable: bool,
}

/// The state of the window with its texts and lists as sequences.
#[verifier::ext_equal]
pub struct AppView {
    pub seed: Seq<char>,
    pub center_x: Seq<char>,
    pub center_z: Seq<char>,
    pub bedrock_type: BedrockType,
    pub grid_cols: int,
    pub grid_rows: int,
    pub grid_cols_str: Seq<char>,
    pub grid_rows_str: Seq<char>,
    pub grid_y_idx: int,
    pub grid_offset_x: Seq<char>,
    pub grid_offset_z: Seq<char>,
    pub grid: Seq<Seq<Seq<CellState>>>,
    pub search_all_rotations: bool,
    pub dup_count_str: Seq<char>,
    pub dup_count: usize,
    pub found_coords: Seq<(i32, i32)>,
    pub status: StatusView,
    pub worker_running: bool,
    pub ui_scale: int,
    pub shell: int,
    pub gpu_init: GpuInitState,
    pub use_gpu: bool,
    pub pending_gpu_enable: bool,
}

impl View for App {
    type V = AppView;

    open spec fn view(&self) -> AppView {
        AppView {
            seed: self.seed@,
            center_x: self.center_x@,
            center_z: self.center_z@,
            bedrock_type: self.bedrock_type,
            grid_cols: self.grid_cols as int,
            grid_rows: self.grid_rows as int,
            grid_cols_str: self.grid_cols_str@,
            grid_rows_str: self.grid_rows_str@,
            grid_y_idx: self.grid_y_idx as int,
            grid_offset_x: self.grid_offset_x@,
            grid_offset_z: self.grid_offset_z@,
            grid: crate::grid::grid_of(self.grid_cells@),
            search_all_rotations: self.search_all_rotations,
            dup_count_str: self.dup_count_str@,
            dup_count: self.dup_count,
            found_coords: self.found_coords@,
            status: self.status@,
            worker_running: self.worker_running,
            ui_scale: self.ui_scale as int,
            shell: self.area_label_l as int,
            gpu_init: self.gpu_init,
            use_gpu: self.use_gpu,
            pending_gpu_enable: self.pending_gpu_enable,
        }
    }
}

/// Something that happened.
#[derive(Debug)]
pub enum Message {
    SeedChanged(String),
    CenterXChanged(String),
    CenterZChanged(String),
    TypeChanged(BedrockType),
    GridColsChanged(String),
    GridRowsChanged(String),
    GridYChanged(usize),
    GridOffsetXChanged(String),
    GridOffsetZChanged(String),
    /// Step the cell in a row and a column of the layer shown.
    GridCellClicked(usize, usize),
    /// Step that cell backwards.
    GridCellRightClicked(usize, usize),
    RotateCW,
    RotateCCW,
    ToggleAllRotations(bool),
    DupCountChanged(String),
    ToggleGpu(bool),
    /// The graphics processor was found, or it was not.
    GpuInitialized(bool),
    Search,
    Cancel,
    /// The search has reached a spiral index.
    SearchProgress(i64),
    /// The search has found these matches so far.
    FoundUpdate(Vec<(i32, i32)>),
    /// The worker has ended, with its matches and whether it was cancelled, or with an error.
    SearchDone(Result<(Vec<(i32, i32)>, bool), String>),
    ZoomIn,
    ZoomOut,
    /// Make every unknown cell of the layer shown non-bedrock.
    FillUnknownNonBedrockLayer,
    ClearGrid,
}

/// A search to be started.
#[derive(Debug)]
pub struct SearchRequest {
    pub seed: i64,
    pub start_x: i32,
    pub start_z: i32,
    pub bedrock_type: BedrockType,
    pub blocks: Vec<Block>,
    pub all_rotations: bool,
    pub dup_target: usize,
    pub use_gpu: bool,
}

/// The patterns that a request asks for: the distinct rotations of its blocks, or the blocks alone.
pub fn request_rotations(request: &SearchRequest) -> (r: Vec<Vec<Block>>)
    requires
        request.all_rotations ==> forall|t: int|
            0 <= t < 4 ==> #[trigger] crate::rotations::rotation_fits(request.blocks@, t),
    ensures
        crate::rotations::patterns_of(r@) == if request.all_rotations {
            crate::rotations::distinct_rotations(request.blocks@, 4)
        } else {
            seq![request.blocks@]
        },
        r@.len() > 0,
        !request.all_rotations ==> r@.len() == 1 && r@[0]@ == request.blocks@,
        request.all_rotations ==> forall|t: int|
            0 <= t < 4 ==> crate::rotations::lists_shape(
                crate::rotations::patterns_of(r@),
                #[trigger] crate::rotations::rotated(request.blocks@, t),
            ),
{
    proof {
        crate::rotations::law_one_to_four_rotations(request.blocks@);
        crate::rotations::law_rotations_are_distinct_and_complete(request.blocks@, 4);
    }
    let blocks: Vec<Block> = request.blocks.clone();
    assert(blocks@ =~= request.blocks@);
    if request.all_rotations {
        generate_rotations(blocks)
    } else {
        let alone: Vec<Vec<Block>> = vec![blocks];
        assert(crate::rotations::patterns_of(alone@) =~= seq![request.blocks@]);
        alone
    }
}

/// What is to be done outside of the window's state.
#[derive(Debug)]
pub enum Action {
    Nothing,
    /// Look for a graphics processor, and report the outcome.
    ProbeGpu,
    /// Give the graphics processor back.
    ReleaseGpu,
    /// Start a worker.
    StartSearch(SearchRequest),
    /// Tell the worker to stop.
    RaiseCancel,
    /// Forget the worker.
    ReleaseWorker,
}

/// The number of cells in a row or a column that an entered number stands for.
pub open spec fn grid_side(n: int) -> int {
    if n < 1 {
        1
    } else if n > 16 {
        16
    } else {
        n
    }
}

/// The offset that an entered text stands for: 0 where it is not a number.
pub open spec fn offset_of(s: Seq<char>) -> int {
    match crate::text::parsed(s, i32::MIN as int, i32::MAX as int) {
        Some(v) => v,
        None => 0,
    }
}

impl AppView {
    /// The grid has one to sixteen rows and columns, the other numbers are in their ranges, and the
    /// graphics processor is used only where it is ready and waited for only while it is looked for.
    pub open spec fn valid(self) -> bool {
        &&& 1 <= self.grid_cols <= 16
        &&& 1 <= self.grid_rows <= 16
        &&& crate::grid::grid_is(self.grid, self.grid_rows, self.grid_cols)
        &&& 0 <= self.grid_y_idx < 4
        &&& 5 <= self.ui_scale <= 20
        &&& 0 <= self.shell <= MAX_SHELL
        &&& self.use_gpu ==> self.gpu_init == GpuInitState::Ready
        &&& self.pending_gpu_enable ==> self.gpu_init == GpuInitState::Probing
    }

    /// The coordinates of all known cells fit.
    pub open spec fn offsets_fit(self) -> bool {
        crate::grid::pattern_fits(
            self.grid,
            offset_of(self.grid_offset_x),
            offset_of(self.grid_offset_z),
            self.grid_rows,
            self.grid_cols,
        )
    }

    /// The message names a layer and a cell that exist, an index of the spiral, and a search that is
    /// refused or whose pattern has coordinates that fit.
    pub open spec fn accepts(self, m: Message) -> bool {
        match m {
            Message::GridYChanged(idx) => idx < 4,
            Message::GridCellClicked(r, c) => r < self.grid_rows && c < self.grid_cols,
            Message::GridCellRightClicked(r, c) => r < self.grid_rows && c < self.grid_cols,
            Message::SearchProgress(idx) => idx <= MAX_INDEX,
            Message::Search => self.search_fault() is Some || self.offsets_fit(),
            _ => true,
        }
    }

    /// What is wrong with the parameters of a search.
    pub open spec fn search_fault(self) -> Option<Seq<char>> {
        if crate::text::parsed(self.seed, i64::MIN as int, i64::MAX as int) is None {
            Some("Invalid seed. Please set a valid 64-bit integer."@)
        } else if crate::text::parsed(self.center_x, i32::MIN as int, i32::MAX as int) is None {
            Some("Invalid center X"@)
        } else if crate::text::parsed(self.center_z, i32::MIN as int, i32::MAX as int) is None {
            Some("Invalid center Z"@)
        } else {
            None
        }
    }

    /// A request asks for the search that the window describes.
    pub open spec fn describes(self, r: SearchRequest) -> bool {
        &&& crate::text::parsed(self.seed, i64::MIN as int, i64::MAX as int) == Some(r.seed as int)
        &&& crate::text::parsed(self.center_x, i32::MIN as int, i32::MAX as int) == Some(
            r.start_x as int,
        )
        &&& crate::text::parsed(self.center_z, i32::MIN as int, i32::MAX as int) == Some(
            r.start_z as int,
        )
        &&& r.bedrock_type == self.bedrock_type
        &&& r.blocks@ == crate::grid::grid_pattern(
            self.grid,
            self.bedrock_type,
            offset_of(self.grid_offset_x),
            offset_of(self.grid_offset_z),
            self.grid_rows,
            self.grid_cols,
        )
        &&& r.all_rotations == self.search_all_rotations
        &&& r.dup_target == self.dup_count
        &&& r.use_gpu == (self.use_gpu && self.gpu_init == GpuInitState::Ready)
    }

    /// The state with another cell in a row and a column of the layer shown.
    pub open spec fn with_cell(self, r: int, c: int, cell: CellState) -> AppView {
        let layer = self.grid[self.grid_y_idx];
        AppView {
            grid: self.grid.update(self.grid_y_idx, layer.update(r, layer[r].update(c, cell))),
            ..self
        }
    }

    /// The state with other numbers of rows and columns.
    pub open spec fn with_size(self, rows: int, cols: int) -> AppView {
        AppView {
            grid: crate::grid::resized_layers(self.grid, rows, cols),
            grid_rows: rows,
            grid_cols: cols,
            ..self
        }
    }

    /// The state with the grid turned by a quarter.
    pub open spec fn turned(self, clockwise: bool) -> AppView {
        AppView {
            grid: crate::grid::turned_layers(self.grid, self.grid_rows, self.grid_cols, clockwise),
            grid_rows: self.grid_cols,
            grid_cols: self.grid_rows,
            grid_rows_str: crate::text::decimal(self.grid_cols),
            grid_cols_str: crate::text::decimal(self.grid_rows),
            ..self
        }
    }

    /// The state after the use of the graphics processor is switched on or off.
    pub open spec fn gpu_toggled(self, on: bool) -> AppView {
        if !on {
            AppView {
                use_gpu: false,
                gpu_init: if self.gpu_init == GpuInitState::Ready {
                    GpuInitState::Capable
                } else {
                    self.gpu_init
                },
                ..self
            }
        } else {
            match self.gpu_init {
                GpuInitState::Ready => AppView { use_gpu: true, ..self },
                GpuInitState::Unavailable => AppView { use_gpu: false, ..self },
                GpuInitState::Probing => self,
                GpuInitState::Capable | GpuInitState::NotProbed => AppView {
                    gpu_init: GpuInitState::Probing,
                    pending_gpu_enable: true,
                    ..self
                },
            }
        }
    }

    /// The state after the graphics processor was found, or was not.
    pub open spec fn gpu_probed(self, found: bool) -> AppView {
        if found {
            AppView {
                gpu_init: GpuInitState::Ready,
                use_gpu: self.use_gpu || self.pending_gpu_enable,
                pending_gpu_enable: false,
                ..self
            }
        } else {
            AppView {
                gpu_init: GpuInitState::Unavailable,
                use_gpu: false,
                pending_gpu_enable: false,
                status: if self.pending_gpu_enable {
                    StatusView::Error("No compatible GPU adapter was found."@)
                } else {
                    self.status
                },
                ..self
            }
        }
    }

    /// The state after a search is asked for.
    pub open spec fn search_asked(self) -> AppView {
        match self.search_fault() {
            Some(e) => AppView { status: StatusView::Error(e), ..self },
            None => AppView {
                status: StatusView::Searching("0 x 0"@),
                found_coords: Seq::empty(),
                worker_running: true,
                shell: 0,
                ..self
            },
        }
    }

    /// The shell whose area is shown once the search has reached an index: the one that holds the
    /// index, but never a smaller one than before.
    pub open spec fn shell_at(self, idx: int) -> int {
        if crate::spiral::shell_of(idx) < self.shell {
            self.shell
        } else {
            crate::spiral::shell_of(idx)
        }
    }

    /// The state after the search has reached an index.
    pub open spec fn progressed(self, idx: int) -> AppView {
        if !(self.status is Searching) {
            self
        } else if idx <= 0 {
            AppView { status: StatusView::Searching("0 x 0"@), ..self }
        } else {
            AppView {
                shell: self.shell_at(idx),
                status: StatusView::Searching(crate::text::area_label(self.shell_at(idx))),
                ..self
            }
        }
    }

    /// How long the worker has run, 0 where there is none.
    pub open spec fn elapsed(self, millis: u64) -> u64 {
        if self.worker_running {
            millis
        } else {
            0
        }
    }

    /// The state after the worker has ended.
    pub open spec fn done(
        self,
        result: Result<(Vec<(i32, i32)>, bool), String>,
        millis: u64,
    ) -> AppView {
        match result {
            Ok((coords, was_cancelled)) => AppView {
                found_coords: coords@,
                worker_running: false,
                status: if was_cancelled {
                    StatusView::Cancelled(coords@.len() as usize, self.elapsed(millis))
                } else {
                    StatusView::Found(coords@.len() as usize, self.elapsed(millis))
                },
                ..self
            },
            Err(e) => AppView { worker_running: false, status: StatusView::Error(e@), ..self },
        }
    }

    /// The state after a message, where the worker has run for the given time.
    pub open spec fn after(self, m: Message, millis: u64) -> AppView {
        match m {
            Message::SeedChanged(s) => AppView { seed: s@, ..self },
            Message::CenterXChanged(s) => AppView { center_x: s@, ..self },
            Message::CenterZChanged(s) => AppView { center_z: s@, ..self },
            Message::TypeChanged(t) => AppView {
                bedrock_type: t,
                grid: crate::grid::blank_grid(self.grid_rows, self.grid_cols),
                grid_y_idx: 0,
                ..self
            },
            Message::GridColsChanged(s) => {
                let entered = AppView { grid_cols_str: s@, ..self };
                match crate::text::parsed(s@, 0, usize::MAX as int) {
                    Some(n) => entered.with_size(self.grid_rows, grid_side(n)),
                    None => entered,
                }
            },
            Message::GridRowsChanged(s) => {
                let entered = AppView { grid_rows_str: s@, ..self };
                match crate::text::parsed(s@, 0, usize::MAX as int) {
                    Some(n) => entered.with_size(grid_side(n), self.grid_cols),
                    None => entered,
                }
            },
            Message::GridYChanged(idx) => AppView { grid_y_idx: idx as int, ..self },
            Message::GridOffsetXChanged(s) => AppView { grid_offset_x: s@, ..self },
            Message::GridOffsetZChanged(s) => AppView { grid_offset_z: s@, ..self },
            Message::GridCellClicked(r, c) => self.with_cell(
                r as int,
                c as int,
                self.grid[self.grid_y_idx][r as int][c as int].following(),
            ),
            Message::GridCellRightClicked(r, c) => self.with_cell(
                r as int,
                c as int,
                self.grid[self.grid_y_idx][r as int][c as int].preceding(),
            ),
            Message::RotateCW => self.turned(true),
            Message::RotateCCW => self.turned(false),
            Message::ToggleAllRotations(v) => AppView { search_all_rotations: v, ..self },
            Message::DupCountChanged(s) => AppView {
                dup_count_str: s@,
                dup_count: if s@.len() == 0 {
                    1
                } else {
                    match crate::text::parsed(s@, 0, usize::MAX as int) {
                        Some(n) => n as usize,
                        None => self.dup_count,
                    }
                },
                ..self
            },
            Message::ToggleGpu(on) => self.gpu_toggled(on),
            Message::GpuInitialized(found) => self.gpu_probed(found),
            Message::Search => self.search_asked(),
            Message::Cancel => AppView {
                status: StatusView::Cancelled(
                    self.found_coords.len() as usize,
                    self.elapsed(millis),
                ),
                ..self
            },
            Message::SearchProgress(idx) => self.progressed(idx as int),
            Message::FoundUpdate(coords) => AppView { found_coords: coords@, ..self },
            Message::SearchDone(result) => self.done(result, millis),
            Message::ZoomIn => AppView {
                ui_scale: if self.ui_scale < 20 {
                    self.ui_scale + 1
                } else {
                    20
                },
                ..self
            },
            Message::ZoomOut => AppView {
                ui_scale: if self.ui_scale > 5 {
                    self.ui_scale - 1
                } else {
                    5
                },
                ..self
            },
            Message::FillUnknownNonBedrockLayer => AppView {
                grid: self.grid.update(
                    self.grid_y_idx,
                    crate::grid::filled(self.grid[self.grid_y_idx]),
                ),
                ..self
            },
            Message::ClearGrid => AppView {
                grid: crate::grid::blank_grid(self.grid_rows, self.grid_cols),
                ..self
            },
        }
    }

    /// A message leads to an action.
    pub open spec fn causes(self, m: Message, a: Action) -> bool {
        match m {
            Message::ToggleGpu(on) => if on && (self.gpu_init == GpuInitState::NotProbed
                || self.gpu_init == GpuInitState::Capable) {
                a is ProbeGpu
            } else if !on && self.gpu_init == GpuInitState::Ready {
                a is ReleaseGpu
            } else {
                a is Nothing
            },
            Message::Search => match self.search_fault() {
                Some(_) => a is Nothing,
                None => a matches Action::StartSearch(r) && self.describes(r),
            },
            Message::Cancel => if self.worker_running {
                a is RaiseCancel
            } else {
                a is Nothing
            },
            Message::SearchDone(_) => a is ReleaseWorker,
            _ => a is Nothing,
        }
    }
}

/// Limits a number of rows or columns to the range that the grid can have.
fn clamp_side(n: usize) -> (r: usize)
    ensures
        r == grid_side(n as int),
        1 <= r <= 16,
{
    if n < 1 {
        1
    } else if n > 16 {
        16
    } else {
        n
    }
}

/// Reads an offset, 0 where the text is not a number.
fn parse_offset(s: &String) -> (r: i32)
    ensures
        r == offset_of(s@),
{
    match parse_i32(s.as_str()) {
        Some(v) => v,
        None => 0,
    }
}

/// A number as text.
fn decimal_text(n: usize) -> (r: String)
    ensures
        r@ == crate::text::decimal(n as int),
{
    let mut r: String = String::new();
    push_decimal(&mut r, n as u64);
    assert(r@ =~= crate::text::decimal(n as int));
    r
}

/// Replaces one cell of a grid.
fn set_cell(cells: &mut Vec<Vec<Vec<CellState>>>, y: usize, r: usize, c: usize, cell: CellState)
    requires
        y < old(cells)@.len(),
        r < old(cells)@[y as int]@.len(),
        c < old(cells)@[y as int]@[r as int]@.len(),
    ensures
        ({
            let grid = crate::grid::grid_of(old(cells)@);
            let layer = grid[y as int];
            crate::grid::grid_of(final(cells)@) == grid.update(
                y as int,
                layer.update(r as int, layer[r as int].update(c as int, cell)),
            )
        }),
{
    let ghost before = cells@;
    let ghost grid = crate::grid::grid_of(before);
    cells[y][r][c] = cell;
    proof {
        let layer = grid[y as int];
        let want = grid.update(
            y as int,
            layer.update(r as int, layer[r as int].update(c as int, cell)),
        );
        let got = crate::grid::grid_of(cells@);
        assert(got[y as int][r as int] =~= want[y as int][r as int]);
        assert(got[y as int] =~= want[y as int]);
        assert(got =~= want);
    }
}

impl Default for App {
    fn default() -> (r: Self)
        ensures
            r.wf(),
            r@ == (AppView {
                seed: Seq::empty(),
                center_x: "0"@,
                center_z: "0"@,
                bedrock_type: BedrockType::Floor,
                grid_cols: 8,
                grid_rows: 8,
                grid_cols_str: crate::text::decimal(8),
                grid_rows_str: crate::text::decimal(8),
                grid_y_idx: 0,
                grid_offset_x: "0"@,
                grid_offset_z: "0"@,
                grid: crate::grid::blank_grid(8, 8),
                search_all_rotations: false,
                dup_count_str: "1"@,
                dup_count: 1,
                found_coords: Seq::empty(),
                status: StatusView::Idle,
                worker_running: false,
                ui_scale: 10,
                shell: 0,
                gpu_init: GpuInitState::NotProbed,
                use_gpu: false,
                pending_gpu_enable: false,
            }),
    {
        App {
            seed: String::new(),
            center_x: String::from_str("0"),
            center_z: String::from_str("0"),
            bedrock_type: BedrockType::Floor,
            grid_cols: 8,
            grid_rows: 8,
            grid_cols_str: decimal_text(8),
            grid_rows_str: decimal_text(8),
            grid_y_idx: 0,
            grid_offset_x: String::from_str("0"),
            grid_offset_z: String::from_str("0"),
            grid_cells: make_grid(8, 8),
            search_all_rotations: false,
            dup_count_str: String::from_str("1"),
            dup_count: 1,
            found_coords: Vec::new(),
            status: SearchStatus::Idle,
            worker_running: false,
            ui_scale: 10,
            area_label_l: 0,
            area_label_next_thresh: 1,
            gpu_init: GpuInitState::NotProbed,
            use_gpu: false,
            pending_gpu_enable: false,
        }
    }
}

impl App {
    /// The state is valid, and the stored threshold is that of the stored shell.
    pub open spec fn wf(self) -> bool {
        &&& self@.valid()
        &&& self.area_label_next_thresh == crate::spiral::shell_last(self.area_label_l as int) + 1
    }

    /// Tells whether a message can be handled.
    pub fn accepts(&self, m: &Message) -> (b: bool)
        requires
            self.wf(),
        ensures
            b == self@.accepts(*m),
    {
        match m {
            Message::GridYChanged(idx) => *idx < 4,
            Message::GridCellClicked(r, c) => *r < self.grid_rows && *c < self.grid_cols,
            Message::GridCellRightClicked(r, c) => *r < self.grid_rows && *c < self.grid_cols,
            Message::SearchProgress(idx) => *idx <= MAX_INDEX,
            Message::Search => {
                parse_i64(self.seed.as_str()).is_none() || parse_i32(
                    self.center_x.as_str(),
                ).is_none() || parse_i32(self.center_z.as_str()).is_none() || grid_fits(
                    &self.grid_cells,
                    parse_offset(&self.grid_offset_x),
                    parse_offset(&self.grid_offset_z),
                    self.grid_rows,
                    self.grid_cols,
                )
            },
            _ => true,
        }
    }

    /// Gives the grid other numbers of rows and columns.
    fn resize(&mut self, rows: usize, cols: usize)
        requires
            old(self).wf(),
            1 <= rows <= 16,
            1 <= cols <= 16,
        ensures
            final(self).wf(),
            final(self)@ == old(self)@.with_size(rows as int, cols as int),
    {
        self.grid_cells = resize_grid(self.grid_cells.as_slice(), rows, cols);
        self.grid_rows = rows;
        self.grid_cols = cols;
    }

    /// Turns the grid by a quarter.
    fn turn(&mut self, clockwise: bool)
        requires
            old(self).wf(),
        ensures
            final(self).wf(),
            final(self)@ == old(self)@.turned(clockwise),
    {
        assert forall|y: int| 0 <= y < self.grid_cells@.len() implies crate::grid::layer_covers(
            #[trigger] crate::grid::grid_of(self.grid_cells@)[y],
            self.grid_rows as int,
            self.grid_cols as int,
        ) by {
            assert(crate::grid::layer_is(
                self@.grid[y],
                self.grid_rows as int,
                self.grid_cols as int,
            ));
        }
        let (new_cells, new_rows, new_cols) = if clockwise {
            rotate_grid_cw(self.grid_cells.as_slice(), self.grid_rows, self.grid_cols)
        } else {
            rotate_grid_ccw(self.grid_cells.as_slice(), self.grid_rows, self.grid_cols)
        };
        self.grid_cells = new_cells;
        self.grid_rows = new_rows;
        self.grid_cols = new_cols;
        self.grid_rows_str = decimal_text(new_rows);
        self.grid_cols_str = decimal_text(new_cols);
    }

    /// Steps a cell of the layer shown, forwards or backwards.
    fn step_cell(&mut self, r: usize, c: usize, forwards: bool)
        requires
            old(self).wf(),
            r < old(self).grid_rows,
            c < old(self).grid_cols,
        ensures
            final(self).wf(),
            final(self)@ == old(self)@.with_cell(
                r as int,
                c as int,
                if forwards {
                    old(self)@.grid[old(self)@.grid_y_idx][r as int][c as int].following()
                } else {
                    old(self)@.grid[old(self)@.grid_y_idx][r as int][c as int].preceding()
                },
            ),
    {
        let y: usize = self.grid_y_idx;
        assert(crate::grid::layer_is(
            self@.grid[y as int],
            self.grid_rows as int,
            self.grid_cols as int,
        ));
        assert(self@.grid[y as int][r as int].len() == self.grid_cols);
        let cell: CellState = self.grid_cells[y][r][c];
        let stepped: CellState = if forwards {
            cell.next()
        } else {
            cell.prev()
        };
        set_cell(&mut self.grid_cells, y, r, c, stepped);
    }

    /// Fills the layer shown.
    fn fill_layer(&mut self)
        requires
            old(self).wf(),
        ensures
            final(self).wf(),
            final(self)@ == (AppView {
                grid: old(self)@.grid.update(
                    old(self)@.grid_y_idx,
                    crate::grid::filled(old(self)@.grid[old(self)@.grid_y_idx]),
                ),
                ..old(self)@
            }),
    {
        let y: usize = self.grid_y_idx;
        let ghost before = self@.grid;
        assert(crate::grid::layer_is(
            before[y as int],
            self.grid_rows as int,
            self.grid_cols as int,
        ));
        let layer: Vec<Vec<CellState>> = fill_unknown(&self.grid_cells[y]);
        self.grid_cells[y] = layer;
        assert(crate::grid::grid_of(self.grid_cells@) =~= before.update(
            y as int,
            crate::grid::filled(before[y as int]),
        ));
    }

    /// Switches the use of the graphics processor on or off.
    fn toggle_gpu(&mut self, on: bool) -> (a: Action)
        requires
            old(self).wf(),
        ensures
            final(self).wf(),
            final(self)@ == old(self)@.gpu_toggled(on),
            old(self)@.causes(Message::ToggleGpu(on), a),
    {
        if !on {
            self.use_gpu = false;
            if self.gpu_init == GpuInitState::Ready {
                self.gpu_init = GpuInitState::Capable;
                return Action::ReleaseGpu;
            }
            return Action::Nothing;
        }
        match self.gpu_init {
            GpuInitState::Ready => {
                self.use_gpu = true;
                Action::Nothing
            },
            GpuInitState::Unavailable => {
                self.use_gpu = false;
                Action::Nothing
            },
            GpuInitState::Probing => Action::Nothing,
            GpuInitState::Capable | GpuInitState::NotProbed => {
                self.gpu_init = GpuInitState::Probing;
                self.pending_gpu_enable = true;
                Action::ProbeGpu
            },
        }
    }

    /// Takes note that the graphics processor was found, or was not.
    fn gpu_initialized(&mut self, found: bool)
        requires
            old(self).wf(),
        ensures
            final(self).wf(),
            final(self)@ == old(self)@.gpu_probed(found),
    {
        if found {
            self.gpu_init = GpuInitState::Ready;
            if self.pending_gpu_enable {
                self.use_gpu = true;
            }
        } else {
            self.gpu_init = GpuInitState::Unavailable;
            self.use_gpu = false;
            if self.pending_gpu_enable {
                self.status = SearchStatus::Error(
                    String::from_str("No compatible GPU adapter was found."),
                );
            }
        }
        self.pending_gpu_enable = false;
    }

    /// Starts a search, or says what is wrong with its parameters.
    fn search(&mut self) -> (a: Action)
        requires
            old(self).wf(),
            old(self)@.search_fault() is Some || old(self)@.offsets_fit(),
        ensures
            final(self).wf(),
            final(self)@ == old(self)@.search_asked(),
            old(self)@.causes(Message::Search, a),
    {
        let seed: i64 = match parse_i64(self.seed.as_str()) {
            Some(v) => v,
            None => {
                self.status = SearchStatus::Error(
                    String::from_str("Invalid seed. Please set a valid 64-bit integer."),
                );
                return Action::Nothing;
            },
        };
        let start_x: i32 = match parse_i32(self.center_x.as_str()) {
            Some(v) => v,
            None => {
                self.status = SearchStatus::Error(String::from_str("Invalid center X"));
                return Action::Nothing;
            },
        };
        let start_z: i32 = match parse_i32(self.center_z.as_str()) {
            Some(v) => v,
            None => {
                self.status = SearchStatus::Error(String::from_str("Invalid center Z"));
                return Action::Nothing;
            },
        };
        let blocks: Vec<Block> = grid_blocks(
            &self.grid_cells,
            self.bedrock_type,
            parse_offset(&self.grid_offset_x),
            parse_offset(&self.grid_offset_z),
            self.grid_rows,
            self.grid_cols,
        );
        self.worker_running = true;
        self.found_coords = Vec::new();
        self.status = SearchStatus::Searching(String::from_str("0 x 0"));
        self.area_label_l = 0;
        self.area_label_next_thresh = 1;
        Action::StartSearch(
            SearchRequest {
                seed,
                start_x,
                start_z,
                bedrock_type: self.bedrock_type,
                blocks,
                all_rotations: self.search_all_rotations,
                dup_target: self.dup_count,
                use_gpu: self.use_gpu && self.gpu_init == GpuInitState::Ready,
            },
        )
    }

    /// Tells whether a search is being shown as running.
    pub fn is_searching(&self) -> (b: bool)
        ensures
            b == (self@.status is Searching),
    {
        match self.status {
            SearchStatus::Searching(_) => true,
            _ => false,
        }
    }

    /// Shows the area that the search has examined.
    fn progress(&mut self, idx: i64)
        requires
            old(self).wf(),
            idx <= MAX_INDEX,
        ensures
            final(self).wf(),
            final(self)@ == old(self)@.progressed(idx as int),
    {
        if !self.is_searching() {
            return;
        }
        if idx <= 0 {
            self.status = SearchStatus::Searching(String::from_str("0 x 0"));
            return;
        }
        let ghost first = self.area_label_l as int;
        let ghost target = crate::spiral::shell_of(idx as int);
        let mut l: i64 = self.area_label_l;
        let mut next: i64 = self.area_label_next_thresh;
        proof {
            crate::spiral::lemma_shell_of(idx as int);
            lemma_shell_reached(idx as int, first);
        }
        while idx >= next
            invariant
                0 < idx <= MAX_INDEX,
                target == crate::spiral::shell_of(idx as int),
                0 <= first <= l <= MAX_SHELL,
                first == l || l <= target,
                next == crate::spiral::shell_last(l as int) + 1,
                idx < next ==> target <= l,
                idx >= next ==> l < target,
            decreases MAX_SHELL - l,
        {
            proof {
                lemma_shell_limit(idx as int);
                lemma_shell_reached(idx as int, l + 1);
            }
            l = l + 1;
            assert(4 * l * l + 4 * l + 1 <= 9_223_372_030_926_249_001) by (nonlinear_arith)
                requires
                    0 <= l <= 1_518_500_249,
            ;
            assert(0 <= 4 * l * l) by (nonlinear_arith);
            next = 4 * l * l + 4 * l + 1;
        }
        self.area_label_l = l;
        self.area_label_next_thresh = next;
        self.status = SearchStatus::Searching(area_label_from_l(l));
    }

    /// Takes note that the worker has ended.
    fn search_done(&mut self, result: Result<(Vec<(i32, i32)>, bool), String>, millis: u64)
        requires
            old(self).wf(),
        ensures
            final(self).wf(),
            final(self)@ == old(self)@.done(result, millis),
    {
        let elapsed: u64 = if self.worker_running {
            millis
        } else {
            0
        };
        self.worker_running = false;
        match result {
            Ok((coords, was_cancelled)) => {
                let count: usize = coords.len();
                self.found_coords = coords;
                self.status =
                if was_cancelled {
                    SearchStatus::Cancelled(count, elapsed)
                } else {
                    SearchStatus::Found(count, elapsed)
                };
            },
            Err(e) => {
                self.status = SearchStatus::Error(e);
            },
        }
    }

    /// Enters the kind of layer. The heights change with it, so the grid is cleared.
    fn change_type(&mut self, t: BedrockType)
        requires
            old(self).wf(),
        ensures
            final(self).wf(),
            final(self)@ == old(self)@.after(Message::TypeChanged(t), 0),
    {
        self.bedrock_type = t;
        self.grid_cells = make_grid(self.grid_rows, self.grid_cols);
        self.grid_y_idx = 0;
    }

    /// Clears the grid.
    fn clear_grid(&mut self)
        requires
            old(self).wf(),
        ensures
            final(self).wf(),
            final(self)@ == old(self)@.after(Message::ClearGrid, 0),
    {
        self.grid_cells = make_grid(self.grid_rows, self.grid_cols);
    }

    /// Enters the number of columns.
    fn enter_cols(&mut self, s: String)
        requires
            old(self).wf(),
        ensures
            final(self).wf(),
            final(self)@ == old(self)@.after(Message::GridColsChanged(s), 0),
    {
        let entered: Option<usize> = parse_usize(s.as_str());
        self.grid_cols_str = s;
        if let Some(n) = entered {
            self.resize(self.grid_rows, clamp_side(n));
        }
    }

    /// Enters the number of rows.
    fn enter_rows(&mut self, s: String)
        requires
            old(self).wf(),
        ensures
            final(self).wf(),
            final(self)@ == old(self)@.after(Message::GridRowsChanged(s), 0),
    {
        let entered: Option<usize> = parse_usize(s.as_str());
        self.grid_rows_str = s;
        if let Some(n) = entered {
            self.resize(clamp_side(n), self.grid_cols);
        }
    }

    /// Enters the number of matches that are wanted.
    fn enter_dup_count(&mut self, s: String)
        requires
            old(self).wf(),
        ensures
            final(self).wf(),
            final(self)@ == old(self)@.after(Message::DupCountChanged(s), 0),
    {
        if s.as_str().unicode_len() == 0 {
            self.dup_count = 1;
        } else if let Some(n) = parse_usize(s.as_str()) {
            self.dup_count = n;
        }
        self.dup_count_str = s;
    }

    /// Asks the worker, if there is one, to stop.
    fn cancel(&mut self, millis: u64) -> (a: Action)
        requires
            old(self).wf(),
        ensures
            final(self).wf(),
            final(self)@ == old(self)@.after(Message::Cancel, millis),
            old(self)@.causes(Message::Cancel, a),
    {
        let elapsed: u64 = if self.worker_running {
            millis
        } else {
            0
        };
        self.status = SearchStatus::Cancelled(self.found_coords.len(), elapsed);
        if self.worker_running {
            Action::RaiseCancel
        } else {
            Action::Nothing
        }
    }

    /// Handles a message. `millis` tells how long the worker, if there is one, has run.
    pub fn update(&mut self, message: Message, millis: u64) -> (a: Action)
        requires
            old(self).wf(),
            old(self)@.accepts(message),
        ensures
            final(self).wf(),
            final(self)@ == old(self)@.after(message, millis),
            old(self)@.causes(message, a),
    {
        match message {
            Message::SeedChanged(s) => {
                self.seed = s;
                Action::Nothing
            },
            Message::CenterXChanged(s) => {
                self.center_x = s;
                Action::Nothing
            },
            Message::CenterZChanged(s) => {
                self.center_z = s;
                Action::Nothing
            },
            Message::TypeChanged(t) => {
                self.change_type(t);
                Action::Nothing
            },
            Message::GridColsChanged(s) => {
                self.enter_cols(s);
                Action::Nothing
            },
            Message::GridRowsChanged(s) => {
                self.enter_rows(s);
                Action::Nothing
            },
            Message::GridYChanged(idx) => {
                self.grid_y_idx = idx;
                Action::Nothing
            },
            Message::GridOffsetXChanged(s) => {
                self.grid_offset_x = s;
                Action::Nothing
            },
            Message::GridOffsetZChanged(s) => {
                self.grid_offset_z = s;
                Action::Nothing
            },
            Message::GridCellClicked(r, c) => {
                self.step_cell(r, c, true);
                Action::Nothing
            },
            Message::GridCellRightClicked(r, c) => {
                self.step_cell(r, c, false);
                Action::Nothing
            },
            Message::RotateCW => {
                self.turn(true);
                Action::Nothing
            },
            Message::RotateCCW => {
                self.turn(false);
                Action::Nothing
            },
            Message::ToggleAllRotations(v) => {
                self.search_all_rotations = v;
                Action::Nothing
            },
            Message::DupCountChanged(s) => {
                self.enter_dup_count(s);
                Action::Nothing
            },
            Message::ToggleGpu(on) => self.toggle_gpu(on),
            Message::GpuInitialized(found) => {
                self.gpu_initialized(found);
                Action::Nothing
            },
            Message::Search => self.search(),
            Message::Cancel => self.cancel(millis),
            Message::SearchProgress(idx) => {
                self.progress(idx);
                Action::Nothing
            },
            Message::FoundUpdate(coords) => {
                self.found_coords = coords;
                Action::Nothing
            },
            Message::SearchDone(result) => {
                self.search_done(result, millis);
                Action::ReleaseWorker
            },
            Message::ZoomIn => {
                if self.ui_scale < 20 {
                    self.ui_scale = self.ui_scale + 1;
                }
                Action::Nothing
            },
            Message::ZoomOut => {
                if self.ui_scale > 5 {
                    self.ui_scale = self.ui_scale - 1;
                }
                Action::Nothing
            },
            Message::FillUnknownNonBedrockLayer => {
                self.fill_layer();
                Action::Nothing
            },
            Message::ClearGrid => {
                self.clear_grid();
                Action::Nothing
            },
        }
    }
}

/// An index lies beyond shell `l` exactly if its shell is larger.
proof fn lemma_shell_reached(k: int, l: int)
    requires
        0 <= k,
        0 <= l,
    ensures
        k > crate::spiral::shell_last(l) <==> l < crate::spiral::shell_of(k),
{
    crate::spiral::lemma_shell_of(k);
    let s = crate::spiral::shell_of(k);
    if l < s {
        assert(4 * l * l + 4 * l < 4 * s * s - 4 * s + 1) by (nonlinear_arith)
            requires
                0 <= l,
                l + 1 <= s,
        ;
    } else {
        assert(4 * s * s + 4 * s <= 4 * l * l + 4 * l) by (nonlinear_arith)
            requires
                0 <= s <= l,
        ;
    }
}

/// The shells of the indices that can occur have a limit.
proof fn lemma_shell_limit(k: int)
    requires
        0 <= k <= MAX_INDEX,
    ensures
        crate::spiral::shell_of(k) <= MAX_SHELL,
{
    lemma_shell_reached(k, MAX_SHELL as int);
    assert(4 * 1_518_500_249int * 1_518_500_249int + 4 * 1_518_500_249int
        == 9_223_372_030_926_249_000) by (nonlinear_arith);
}

/// A click and a right click on the same cell cancel each other, in either order.
pub proof fn law_clicks_cancel(s: AppView, r: usize, c: usize)
    requires
        s.valid(),
        r < s.grid_rows,
        c < s.grid_cols,
    ensures
        s.after(Message::GridCellClicked(r, c), 0).after(Message::GridCellRightClicked(r, c), 0)
            == s,
        s.after(Message::GridCellRightClicked(r, c), 0).after(Message::GridCellClicked(r, c), 0)
            == s,
{
    let there = s.after(Message::GridCellClicked(r, c), 0);
    let back = there.after(Message::GridCellRightClicked(r, c), 0);
    let here = s.after(Message::GridCellRightClicked(r, c), 0);
    let forth = here.after(Message::GridCellClicked(r, c), 0);
    let y = s.grid_y_idx;
    assert(crate::grid::layer_is(s.grid[y], s.grid_rows, s.grid_cols));
    assert(s.grid[y][r as int].len() == s.grid_cols);
    crate::grid::law_cell_states_cycle(s.grid[y][r as int][c as int]);
    assert(back.grid[y][r as int] =~= s.grid[y][r as int]);
    assert(back.grid[y] =~= s.grid[y]);
    assert(back.grid =~= s.grid);
    assert(forth.grid[y][r as int] =~= s.grid[y][r as int]);
    assert(forth.grid[y] =~= s.grid[y]);
    assert(forth.grid =~= s.grid);
}

/// Rotating and rotating back restores the grid, in either order.
pub proof fn law_rotations_cancel(s: AppView)
    requires
        s.valid(),
    ensures
        ({
            let back = s.after(Message::RotateCW, 0).after(Message::RotateCCW, 0);
            back.grid == s.grid && back.grid_rows == s.grid_rows && back.grid_cols == s.grid_cols
        }),
        ({
            let back = s.after(Message::RotateCCW, 0).after(Message::RotateCW, 0);
            back.grid == s.grid && back.grid_rows == s.grid_rows && back.grid_cols == s.grid_cols
        }),
{
    crate::grid::law_turns_are_inverse(s.grid, s.grid_rows, s.grid_cols, true);
    crate::grid::law_turns_are_inverse(s.grid, s.grid_rows, s.grid_cols, false);
}

/// Making the grid larger loses no cell: making it as small again restores it.
pub proof fn law_enlarging_loses_nothing(s: AppView, rows: int, cols: int)
    requires
        s.valid(),
        s.grid_rows <= rows,
        s.grid_cols <= cols,
    ensures
        s.with_size(rows, cols).with_size(s.grid_rows, s.grid_cols) == s,
{
    let back = s.with_size(rows, cols).with_size(s.grid_rows, s.grid_cols);
    assert forall|y: int| 0 <= y < 4 implies #[trigger] back.grid[y] == s.grid[y] by {
        assert(crate::grid::layer_is(s.grid[y], s.grid_rows, s.grid_cols));
        assert forall|r: int| 0 <= r < s.grid_rows implies #[trigger] back.grid[y][r]
            == s.grid[y][r] by {
            assert(s.grid[y][r].len() == s.grid_cols);
            assert(back.grid[y][r] =~= s.grid[y][r]);
        }
        assert(back.grid[y] =~= s.grid[y]);
    }
    assert(back.grid =~= s.grid);
}

/// As long as the reported indices of a search do not fall, the area shown is that of the shell
/// which holds the last of them.
pub proof fn law_area_follows_progress(s: AppView, i: i64, j: i64)
    requires
        s.status is Searching,
        0 < i <= j,
        s.shell <= crate::spiral::shell_of(i as int),
    ensures
        s.after(Message::SearchProgress(i), 0).after(Message::SearchProgress(j), 0).status
            == StatusView::Searching(
            crate::text::area_label(crate::spiral::shell_of(j as int)),
        ),
{
    crate::spiral::lemma_shell_of(i as int);
    crate::spiral::lemma_shell_of(j as int);
    let a = crate::spiral::shell_of(i as int);
    lemma_shell_reached(j as int, crate::spiral::shell_of(j as int));
    if crate::spiral::shell_of(j as int) < a {
        lemma_shell_reached(i as int, crate::spiral::shell_of(j as int));
    }
}

/// A search that is asked for either starts, with an empty list of matches, or is refused with an
/// error and changes nothing else.
pub proof fn law_search_starts_or_is_refused(s: AppView)
    ensures
        match s.search_fault() {
            Some(e) => s.after(Message::Search, 0) == (AppView {
                status: StatusView::Error(e),
                ..s
            }),
            None => {
                &&& s.after(Message::Search, 0).status is Searching
                &&& s.after(Message::Search, 0).found_coords.len() == 0
            },
        },
{
}

/// The text of a search status.
pub open spec fn status_label(s: StatusView) -> Seq<char> {
    match s {
        StatusView::Idle => "Ready."@,
        StatusView::Searching(area) => "Searching "@ + area + "\u{2026}"@,
        StatusView::Cancelled(n, millis) => "Cancelled after "@ + crate::text::duration_label(
            (millis + 500) / 1000,
        ) + "; "@ + crate::text::coord_count_label(n as int) + " found."@,
        StatusView::Found(n, millis) => crate::text::coord_count_label(n as int) + " found  ("@
            + crate::text::duration_label((millis + 500) / 1000) + ")"@,
        StatusView::Error(e) => "Error: "@ + e,
    }
}

/// The text of the switch for the graphics processor.
pub open spec fn gpu_switch_label(s: AppView) -> Seq<char> {
    match s.gpu_init {
        GpuInitState::Probing => "Checking for a GPU\u{2026}"@,
        GpuInitState::Unavailable => "GPU not available on this system"@,
        _ => if s.use_gpu {
            "GPU search enabled (faster)"@
        } else {
            "Use GPU for search"@
        },
    }
}

/// The text of the tab of a layer: its height, with a star where something is known of it.
pub open spec fn layer_tab_label(s: AppView, y: int) -> Seq<char> {
    let height = crate::text::signed_decimal(crate::bedrock::layer_heights(s.bedrock_type)[y]);
    if crate::grid::layer_known(s.grid[y]) {
        height + "*"@
    } else {
        height
    }
}

impl App {
    /// Makes the text of the status bar.
    pub fn status_text(&self) -> (r: String)
        ensures
            r@ == status_label(self@.status),
    {
        match &self.status {
            SearchStatus::Idle => String::from_str("Ready."),
            SearchStatus::Searching(area) => {
                let mut r: String = String::from_str("Searching ");
                r.append(area.as_str());
                r.append("\u{2026}");
                r
            },
            SearchStatus::Cancelled(n, millis) => {
                let mut r: String = String::from_str("Cancelled after ");
                r.append(format_duration(*millis).as_str());
                r.append("; ");
                r.append(fmt_coord_count(*n).as_str());
                r.append(" found.");
                r
            },
            SearchStatus::Found(n, millis) => {
                let mut r: String = fmt_coord_count(*n);
                r.append(" found  (");
                r.append(format_duration(*millis).as_str());
                r.append(")");
                r
            },
            SearchStatus::Error(e) => {
                let mut r: String = String::from_str("Error: ");
                r.append(e.as_str());
                r
            },
        }
    }

    /// Makes the text of the switch for the graphics processor.
    pub fn gpu_label(&self) -> (r: String)
        ensures
            r@ == gpu_switch_label(self@),
    {
        match self.gpu_init {
            GpuInitState::Probing => String::from_str("Checking for a GPU\u{2026}"),
            GpuInitState::Unavailable => String::from_str("GPU not available on this system"),
            _ => if self.use_gpu {
                String::from_str("GPU search enabled (faster)")
            } else {
                String::from_str("Use GPU for search")
            },
        }
    }

    /// Makes the text of the tab of a layer.
    pub fn layer_label(&self, y: usize) -> (r: String)
        requires
            self.wf(),
            y < 4,
        ensures
            r@ == layer_tab_label(self@, y as int),
    {
        let ys: [i32; 4] = y_values(self.bedrock_type);
        let mut r: String = String::new();
        assert(ys[y as int] == crate::bedrock::layer_heights(self.bedrock_type)[y as int]);
        push_signed(&mut r, ys[y] as i64);
        if layer_has_data(&self.grid_cells[y]) {
            r.append("*");
        }
        assert(r@ =~= layer_tab_label(self@, y as int));
        r
    }

    /// Makes the text that shows the zoom level.
    pub fn zoom_label(&self) -> (r: String)
        requires
            self.wf(),
        ensures
            r@ == "Zoom: "@ + crate::text::decimal(10 * self@.ui_scale) + "%"@,
    {
        let mut r: String = String::from_str("Zoom: ");
        push_decimal(&mut r, 10 * self.ui_scale as u64);
        r.append("%");
        r
    }
}

/// A text filled up with spaces in front.
pub open spec fn padded_left(s: Seq<char>, width: nat) -> Seq<char> {
    if s.len() < width {
        Seq::new((width - s.len()) as nat, |i: int| ' ') + s
    } else {
        s
    }
}

/// A text filled up with spaces behind.
pub open spec fn padded_right(s: Seq<char>, width: nat) -> Seq<char> {
    if s.len() < width {
        s + Seq::new((width - s.len()) as nat, |i: int| ' ')
    } else {
        s
    }
}

/// Appends spaces.
fn push_spaces(s: &mut String, n: usize)
    ensures
        final(s)@ == old(s)@ + Seq::new(n as nat, |i: int| ' '),
{
    let ghost before = s@;
    let mut i: usize = 0;
    proof {
        reveal_strlit(" ");
        assert(" "@ =~= seq![' ']);
        assert(before =~= before + Seq::new(0, |i: int| ' '));
    }
    while i < n
        invariant
            0 <= i <= n,
            " "@ == seq![' '],
            s@ == before + Seq::new(i as nat, |i: int| ' '),
        decreases n - i,
    {
        s.append(" ");
        i = i + 1;
        assert(s@ =~= before + Seq::new(i as nat, |i: int| ' '));
    }
}

/// The line of the list of matches for match number `n`.
pub open spec fn match_line(n: int, x: int, z: int) -> Seq<char> {
    padded_left(crate::text::decimal(n), 4) + ".   X: "@ + padded_right(
        crate::text::signed_decimal(x),
        10,
    ) + "  Z: "@ + crate::text::signed_decimal(z)
}

/// Makes the line of the list of matches for match number `n`.
pub fn result_line(n: usize, x: i32, z: i32) -> (r: String)
    ensures
        r@ == match_line(n as int, x as int, z as int),
{
    let number: String = decimal_text(n);
    let digits: usize = number.as_str().unicode_len();
    let mut r: String = String::new();
    if digits < 4 {
        push_spaces(&mut r, 4 - digits);
    }
    r.append(number.as_str());
    assert(r@ =~= padded_left(crate::text::decimal(n as int), 4));
    r.append(".   X: ");
    let mut across: String = String::new();
    push_signed(&mut across, x as i64);
    assert(across@ =~= crate::text::signed_decimal(x as int));
    let chars: usize = across.as_str().unicode_len();
    if chars < 10 {
        push_spaces(&mut across, 10 - chars);
    }
    assert(across@ =~= padded_right(crate::text::signed_decimal(x as int), 10));
    r.append(across.as_str());
    r.append("  Z: ");
    push_signed(&mut r, z as i64);
    r
}

/// The message that a key stands for while the control key is held: plus and equals zoom in, minus
/// zooms out.
pub fn zoom_key(control: bool, key: &str) -> (r: Option<Message>)
    ensures
        control && (key@ == seq!['+'] || key@ == seq!['=']) ==> r == Some(Message::ZoomIn),
        control && key@ == seq!['-'] ==> r == Some(Message::ZoomOut),
        !control || (key@ != seq!['+'] && key@ != seq!['='] && key@ != seq!['-']) ==> r is None,
{
    if !control || key.unicode_len() != 1 {
        return None;
    }
    let c: char = key.get_char(0);
    assert(key@ =~= seq![c]);
    if c == '+' || c == '=' {
        assert(c == seq![c][0]);
        Some(Message::ZoomIn)
    } else if c == '-' {
        Some(Message::ZoomOut)
    } else {
        assert(seq![c][0] == c && seq!['+'][0] == '+' && seq!['='][0] == '=' && seq!['-'][0]
            == '-');
        None
    }
}

/// Each text that is entered stays as it was entered until it is entered anew, whatever else
/// happens.
pub proof fn law_entered_texts_stay(s: AppView, m: Message, millis: u64)
    ensures
        m matches Message::SeedChanged(t) ==> s.after(m, millis).seed == t@,
        !(m is SeedChanged) ==> s.after(m, millis).seed == s.seed,
        m matches Message::CenterXChanged(t) ==> s.after(m, millis).center_x == t@,
        !(m is CenterXChanged) ==> s.after(m, millis).center_x == s.center_x,
        m matches Message::CenterZChanged(t) ==> s.after(m, millis).center_z == t@,
        !(m is CenterZChanged) ==> s.after(m, millis).center_z == s.center_z,
        m matches Message::GridOffsetXChanged(t) ==> s.after(m, millis).grid_offset_x == t@,
        !(m is GridOffsetXChanged) ==> s.after(m, millis).grid_offset_x == s.grid_offset_x,
        m matches Message::GridOffsetZChanged(t) ==> s.after(m, millis).grid_offset_z == t@,
        !(m is GridOffsetZChanged) ==> s.after(m, millis).grid_offset_z == s.grid_offset_z,
        m matches Message::DupCountChanged(t) ==> s.after(m, millis).dup_count_str == t@,
        !(m is DupCountChanged) ==> s.after(m, millis).dup_count_str == s.dup_count_str,
        m matches Message::GridColsChanged(t) ==> s.after(m, millis).grid_cols_str == t@,
        m matches Message::GridRowsChanged(t) ==> s.after(m, millis).grid_rows_str == t@,
        !(m is GridColsChanged || m is RotateCW || m is RotateCCW) ==> s.after(
            m,
            millis,
        ).grid_cols_str == s.grid_cols_str,
        !(m is GridRowsChanged || m is RotateCW || m is RotateCCW) ==> s.after(
            m,
            millis,
        ).grid_rows_str == s.grid_rows_str,
{
}

/// Each choice stays as it was made until it is made anew, whatever else happens. Choosing the other
/// layer of the world leads back to the first layer of the grid.
pub proof fn law_choices_stay(s: AppView, m: Message, millis: u64)
    ensures
        m matches Message::TypeChanged(t) ==> s.after(m, millis).bedrock_type == t,
        !(m is TypeChanged) ==> s.after(m, millis).bedrock_type == s.bedrock_type,
        m matches Message::ToggleAllRotations(on) ==> s.after(m, millis).search_all_rotations == on,
        !(m is ToggleAllRotations) ==> s.after(m, millis).search_all_rotations
            == s.search_all_rotations,
        m matches Message::GridYChanged(y) ==> s.after(m, millis).grid_y_idx == y,
        m is TypeChanged ==> s.after(m, millis).grid_y_idx == 0,
        !(m is GridYChanged || m is TypeChanged) ==> s.after(m, millis).grid_y_idx == s.grid_y_idx,
{
}

/// The number of matches that are wanted is the one that its text stands for: one where the text is
/// empty, and whatever number is read from it where one is.
pub open spec fn wanted_as_shown(s: AppView) -> bool {
    &&& s.dup_count_str.len() == 0 ==> s.dup_count == 1
    &&& crate::text::parsed(s.dup_count_str, 0, usize::MAX as int) matches Some(n) ==> s.dup_count
        == n
}

/// Whatever happens, the number of matches that are wanted stays the one that its text stands for.
/// From the moment at which a text is entered it is that one.
pub proof fn law_wanted_matches_follow_text(s: AppView, m: Message, millis: u64)
    ensures
        wanted_as_shown(s) ==> wanted_as_shown(s.after(m, millis)),
        m is DupCountChanged ==> wanted_as_shown(s.after(m, millis)),
        !(m is DupCountChanged) ==> s.after(m, millis).dup_count == s.dup_count,
{
    let after = s.after(m, millis);
    if let Message::DupCountChanged(t) = m {
        crate::text::law_range_only_limits(t@, 0, usize::MAX as int, 0, usize::MAX as int);
        if t@.len() == 0 {
            crate::text::law_texts_that_are_no_numbers(t@, 0, usize::MAX as int, 0);
        }
    } else {
        assert(after.dup_count == s.dup_count && after.dup_count_str == s.dup_count_str);
    }
}

/// A text that is no number leaves the number of matches that are wanted as it is.
pub proof fn law_other_texts_keep_wanted_matches(s: AppView, t: String, millis: u64)
    requires
        t@.len() > 0,
        crate::text::parsed(t@, 0, usize::MAX as int) is None,
    ensures
        s.after(Message::DupCountChanged(t), millis).dup_count == s.dup_count,
{
}

/// The search that starts asks for exactly as many matches as the text of the field says, however
/// many these are.
pub proof fn law_search_asks_for_wanted_matches(s: AppView, r: SearchRequest, n: int)
    requires
        wanted_as_shown(s),
        s.causes(Message::Search, Action::StartSearch(r)),
        crate::text::parsed(s.dup_count_str, 0, usize::MAX as int) == Some(n),
    ensures
        r.dup_target == n,
{
}

/// Entering a number and then searching asks for that many matches.
pub proof fn law_entered_number_is_asked_for(s: AppView, t: String, r: SearchRequest, n: int)
    requires
        0 <= n <= usize::MAX,
        t@ == crate::text::decimal(n),
        s.after(Message::DupCountChanged(t), 0).causes(Message::Search, Action::StartSearch(r)),
    ensures
        r.dup_target == n,
{
    law_wanted_matches_follow_text(s, Message::DupCountChanged(t), 0);
    crate::text::law_written_numbers_are_read(n, 0, usize::MAX as int);
    law_search_asks_for_wanted_matches(s.after(Message::DupCountChanged(t), 0), r, n);
}

/// The search that starts is the one that the window shows: the numbers that are read from the
/// fields for the seed and the centre, the layer of the world, the switches, and the pattern of the
/// grid with its corner at the offsets that are read from their fields, zero where none is.
pub proof fn law_search_is_the_one_shown(s: AppView, r: SearchRequest, x0: int, z0: int)
    requires
        s.causes(Message::Search, Action::StartSearch(r)),
        match crate::text::parsed(s.grid_offset_x, -0x8000_0000, 0x7FFF_FFFF) {
            Some(n) => x0 == n,
            None => x0 == 0,
        },
        match crate::text::parsed(s.grid_offset_z, -0x8000_0000, 0x7FFF_FFFF) {
            Some(n) => z0 == n,
            None => z0 == 0,
        },
    ensures
        crate::text::parsed(s.seed, -0x8000_0000_0000_0000, 0x7FFF_FFFF_FFFF_FFFF) == Some(
            r.seed as int,
        ),
        crate::text::parsed(s.center_x, -0x8000_0000, 0x7FFF_FFFF) == Some(r.start_x as int),
        crate::text::parsed(s.center_z, -0x8000_0000, 0x7FFF_FFFF) == Some(r.start_z as int),
        r.bedrock_type == s.bedrock_type,
        r.all_rotations == s.search_all_rotations,
        r.blocks@ == crate::grid::grid_pattern(
            s.grid,
            s.bedrock_type,
            x0,
            z0,
            s.grid_rows,
            s.grid_cols,
        ),
        r.use_gpu ==> s.use_gpu,
        s.use_gpu && s.gpu_init == GpuInitState::Ready ==> r.use_gpu,
{
}

/// Numbers that are written into the fields are the ones that are searched with.
pub proof fn law_written_numbers_are_searched_with(
    s: AppView,
    r: SearchRequest,
    seed: int,
    x: int,
    z: int,
)
    requires
        s.causes(Message::Search, Action::StartSearch(r)),
        s.seed == crate::text::signed_decimal(seed),
        s.center_x == crate::text::signed_decimal(x),
        s.center_z == crate::text::signed_decimal(z),
    ensures
        r.seed == seed,
        r.start_x == x,
        r.start_z == z,
{
    crate::text::law_written_numbers_are_read(seed, i64::MIN as int, i64::MAX as int);
    crate::text::law_written_numbers_are_read(x, i32::MIN as int, i32::MAX as int);
    crate::text::law_written_numbers_are_read(z, i32::MIN as int, i32::MAX as int);
}

/// What is searched for is what is drawn: for every known cell of the grid the search demands of
/// the place of that cell what the cell says, and it demands nothing else.
pub proof fn law_search_demands_what_is_drawn(
    s: AppView,
    r: SearchRequest,
    x0: i32,
    z0: i32,
    y: int,
    row: int,
    col: int,
    i: int,
)
    requires
        s.valid(),
        s.accepts(Message::Search),
        s.causes(Message::Search, Action::StartSearch(r)),
        match crate::text::parsed(s.grid_offset_x, -0x8000_0000, 0x7FFF_FFFF) {
            Some(n) => x0 == n,
            None => x0 == 0,
        },
        match crate::text::parsed(s.grid_offset_z, -0x8000_0000, 0x7FFF_FFFF) {
            Some(n) => z0 == n,
            None => z0 == 0,
        },
        0 <= y < 4,
        0 <= row < s.grid_rows,
        0 <= col < s.grid_cols,
    ensures
        s.grid[y][row][col] != CellState::Unknown ==> exists|b: int|
            0 <= b < r.blocks@.len() && crate::grid::states_cell(
                #[trigger] r.blocks@[b],
                s.bedrock_type,
                y,
                x0 + col,
                z0 + row,
                s.grid[y][row][col] == CellState::Bedrock,
            ),
        0 <= i < r.blocks@.len() ==> exists|v: int, w: int, u: int|
            {
                &&& 0 <= v < 4
                &&& 0 <= w < s.grid_rows
                &&& 0 <= u < s.grid_cols
                &&& #[trigger] s.grid[v][w][u] != CellState::Unknown
                &&& crate::grid::states_cell(
                    r.blocks@[i],
                    s.bedrock_type,
                    v,
                    x0 + u,
                    z0 + w,
                    s.grid[v][w][u] == CellState::Bedrock,
                )
            },
{
    if s.grid[y][row][col] != CellState::Unknown {
        crate::grid::law_pattern_states_every_known_cell(
            s.grid,
            s.bedrock_type,
            x0,
            z0,
            s.grid_rows,
            s.grid_cols,
            y,
            row,
            col,
        );
    }
    if 0 <= i < r.blocks@.len() {
        crate::grid::law_every_block_states_a_known_cell(
            s.grid,
            s.bedrock_type,
            x0,
            z0,
            s.grid_rows,
            s.grid_cols,
            i,
        );
    }
}

/// A search starts exactly if numbers in range are written into the fields for the seed and the
/// centre. Otherwise the error names the first field that holds none, and nothing else changes.
pub proof fn law_search_needs_three_numbers(s: AppView, a: Action, millis: u64)
    requires
        s.causes(Message::Search, a),
    ensures
        ({
            let seed = crate::text::parsed(s.seed, -0x8000_0000_0000_0000, 0x7FFF_FFFF_FFFF_FFFF);
            let x = crate::text::parsed(s.center_x, -0x8000_0000, 0x7FFF_FFFF);
            let z = crate::text::parsed(s.center_z, -0x8000_0000, 0x7FFF_FFFF);
            let after = s.after(Message::Search, millis);
            &&& a is StartSearch <==> seed is Some && x is Some && z is Some
            &&& a is StartSearch ==> after.worker_running && after.found_coords.len() == 0
                && after.status == StatusView::Searching("0 x 0"@) && after.shell == 0
            &&& !(a is StartSearch) ==> a is Nothing && after.worker_running == s.worker_running
                && after.found_coords == s.found_coords && after.shell == s.shell
            &&& seed is None ==> after.status == StatusView::Error(
                "Invalid seed. Please set a valid 64-bit integer."@,
            )
            &&& seed is Some && x is None ==> after.status == StatusView::Error(
                "Invalid center X"@,
            )
            &&& seed is Some && x is Some && z is None ==> after.status == StatusView::Error(
                "Invalid center Z"@,
            )
        }),
{
}

/// A click on a cell of the layer shown steps that cell, and a right click steps it back. No other
/// cell of any layer changes.
pub proof fn law_click_changes_one_cell(
    s: AppView,
    r: usize,
    c: usize,
    back: bool,
    millis: u64,
    y: int,
    row: int,
    col: int,
)
    requires
        s.valid(),
        r < s.grid_rows,
        c < s.grid_cols,
        0 <= y < 4,
        0 <= row < s.grid_rows,
        0 <= col < s.grid_cols,
    ensures
        ({
            let after = if back {
                s.after(Message::GridCellRightClicked(r, c), millis)
            } else {
                s.after(Message::GridCellClicked(r, c), millis)
            };
            let cell = s.grid[y][row][col];
            if (y, row, col) == (s.grid_y_idx, r as int, c as int) {
                after.grid[y][row][col] == if back {
                    cell.preceding()
                } else {
                    cell.following()
                }
            } else {
                after.grid[y][row][col] == cell
            }
        }),
{
    assert(crate::grid::layer_is(s.grid[y], s.grid_rows, s.grid_cols));
    assert(crate::grid::layer_is(s.grid[s.grid_y_idx], s.grid_rows, s.grid_cols));
    assert(s.grid[y][row].len() == s.grid_cols);
    assert(s.grid[s.grid_y_idx][r as int].len() == s.grid_cols);
}

/// The cells and the size of the grid change only by the messages that are about them. Choosing the
/// other layer of the world and clearing make all cells unknown, turning exchanges rows and columns
/// and turns the cells with them, and filling changes the layer shown alone.
pub proof fn law_grid_changes_only_when_asked(s: AppView, m: Message, millis: u64, y: int)
    requires
        s.valid(),
        0 <= y < 4,
    ensures
        ({
            let after = s.after(m, millis);
            let turns = m is RotateCW || m is RotateCCW;
            &&& !(m is GridColsChanged || turns) ==> after.grid_cols == s.grid_cols
            &&& !(m is GridRowsChanged || turns) ==> after.grid_rows == s.grid_rows
            &&& turns ==> after.grid_cols == s.grid_rows && after.grid_rows == s.grid_cols
            &&& turns ==> after.grid_rows_str == crate::text::decimal(after.grid_rows)
            &&& turns ==> after.grid_cols_str == crate::text::decimal(after.grid_cols)
            &&& turns ==> after.grid == crate::grid::turned_layers(
                s.grid,
                s.grid_rows,
                s.grid_cols,
                m is RotateCW,
            )
            &&& m is TypeChanged || m is ClearGrid ==> after.grid == crate::grid::blank_grid(
                s.grid_rows,
                s.grid_cols,
            )
            &&& m is FillUnknownNonBedrockLayer ==> after.grid[y] == if y == s.grid_y_idx {
                crate::grid::filled(s.grid[y])
            } else {
                s.grid[y]
            }
            &&& !(m is GridColsChanged || m is GridRowsChanged || turns || m is TypeChanged
                || m is ClearGrid || m is FillUnknownNonBedrockLayer || m is GridCellClicked
                || m is GridCellRightClicked) ==> after.grid == s.grid
        }),
{
}

/// A number of rows or columns that is entered becomes that of the grid, where it lies between one
/// and sixteen; a smaller one becomes one, and a larger one sixteen. The cells are kept as far as
/// there is room for them, the other side does not change, and a text that is no number changes
/// nothing but itself.
pub proof fn law_entered_size_becomes_that_of_the_grid(
    s: AppView,
    t: String,
    millis: u64,
    n: int,
)
    requires
        crate::text::parsed(t@, 0, usize::MAX as int) == Some(n),
    ensures
        ({
            let wide = s.after(Message::GridColsChanged(t), millis);
            let tall = s.after(Message::GridRowsChanged(t), millis);
            &&& 1 <= n <= 16 ==> wide.grid_cols == n && tall.grid_rows == n
            &&& n < 1 ==> wide.grid_cols == 1 && tall.grid_rows == 1
            &&& n > 16 ==> wide.grid_cols == 16 && tall.grid_rows == 16
            &&& wide.grid_rows == s.grid_rows
            &&& tall.grid_cols == s.grid_cols
            &&& wide.grid == crate::grid::resized_layers(s.grid, s.grid_rows, wide.grid_cols)
            &&& tall.grid == crate::grid::resized_layers(s.grid, tall.grid_rows, s.grid_cols)
        }),
{
}

/// A text that is no number leaves the grid as it is.
pub proof fn law_other_texts_keep_the_grid(s: AppView, t: String, millis: u64)
    requires
        crate::text::parsed(t@, 0, usize::MAX as int) is None,
    ensures
        s.after(Message::GridColsChanged(t), millis) == (AppView { grid_cols_str: t@, ..s }),
        s.after(Message::GridRowsChanged(t), millis) == (AppView { grid_rows_str: t@, ..s }),
{
}

/// The list shows the matches that the worker has handed over last, and is emptied when a search
/// starts.
pub proof fn law_list_shows_what_was_found(s: AppView, m: Message, millis: u64)
    ensures
        ({
            let after = s.after(m, millis);
            &&& m matches Message::FoundUpdate(coords) ==> after.found_coords == coords@
            &&& m matches Message::SearchDone(Ok((coords, _))) ==> after.found_coords == coords@
            &&& m matches Message::SearchDone(Err(_)) ==> after.found_coords == s.found_coords
            &&& m is Search && after.status is Searching && !(s.search_fault() is Some)
                ==> after.found_coords.len() == 0
            &&& !(m is FoundUpdate || m is SearchDone || m is Search) ==> after.found_coords
                == s.found_coords
        }),
{
}

/// A worker runs from the start of a search until it reports its end. Only a running worker is told
/// to stop.
pub proof fn law_worker_runs_until_done(s: AppView, m: Message, millis: u64, a: Action)
    requires
        s.causes(m, a),
    ensures
        a is StartSearch ==> s.after(m, millis).worker_running && m is Search,
        m is SearchDone ==> !s.after(m, millis).worker_running && a is ReleaseWorker,
        a is ReleaseWorker ==> m is SearchDone,
        a is RaiseCancel <==> m is Cancel && s.worker_running,
        !(a is StartSearch || m is SearchDone) ==> s.after(m, millis).worker_running
            == s.worker_running,
{
}

/// The status tells how a search ended: with how many matches, after how long, and whether it was
/// cancelled; or with which error.
pub proof fn law_status_tells_the_end(s: AppView, m: Message, millis: u64)
    ensures
        ({
            let status = s.after(m, millis).status;
            let time: u64 = if s.worker_running {
                millis
            } else {
                0
            };
            &&& m is Cancel ==> status == StatusView::Cancelled(
                s.found_coords.len() as usize,
                time,
            )
            &&& m matches Message::SearchDone(Ok((coords, true))) ==> status
                == StatusView::Cancelled(coords@.len() as usize, time)
            &&& m matches Message::SearchDone(Ok((coords, false))) ==> status == StatusView::Found(
                coords@.len() as usize,
                time,
            )
            &&& m matches Message::SearchDone(Err(e)) ==> status == StatusView::Error(e@)
            &&& !(m is Cancel || m is SearchDone || m is Search || m is SearchProgress
                || m is GpuInitialized) ==> status == s.status
        }),
{
}

/// A report of progress changes nothing but the area shown, and only while a search is shown as
/// running. The area shown never shrinks, and it is no smaller than the one that holds the index.
pub proof fn law_progress_changes_the_area_alone(s: AppView, idx: i64, millis: u64)
    requires
        s.valid(),
    ensures
        ({
            let after = s.after(Message::SearchProgress(idx), millis);
            &&& after == (AppView { shell: after.shell, status: after.status, ..s })
            &&& !(s.status is Searching) ==> after == s
            &&& s.status is Searching ==> after.status is Searching
            &&& s.shell <= after.shell
            &&& s.status is Searching && idx > 0 ==> idx < (2 * after.shell + 1) * (2 * after.shell
                + 1) && after.status == StatusView::Searching(
                crate::text::area_label(after.shell),
            )
            &&& after.shell > s.shell ==> (2 * after.shell - 1) * (2 * after.shell - 1) <= idx
        }),
{
    if idx > 0 {
        let l = crate::spiral::shell_of(idx as int);
        crate::spiral::lemma_shell_of(idx as int);
        crate::spiral::law_shell_is_distance(idx as int);
        lemma_shell_reached(idx as int, s.shell);
        assert(4 * l * l + 4 * l == (2 * l + 1) * (2 * l + 1) - 1) by (nonlinear_arith);
        assert(4 * l * l - 4 * l + 1 == (2 * l - 1) * (2 * l - 1)) by (nonlinear_arith);
        let o = s.shell;
        assert(4 * o * o + 4 * o == (2 * o + 1) * (2 * o + 1) - 1) by (nonlinear_arith);
    }
}

/// Zooming goes in steps of a tenth between a half and twice the size, and changes nothing else.
pub proof fn law_zoom_goes_in_steps(s: AppView, m: Message, millis: u64)
    ensures
        ({
            let after = s.after(m, millis);
            &&& m is ZoomIn && s.ui_scale < 20 ==> after.ui_scale == s.ui_scale + 1
            &&& m is ZoomIn && s.ui_scale == 20 ==> after.ui_scale == s.ui_scale
            &&& m is ZoomOut && s.ui_scale > 5 ==> after.ui_scale == s.ui_scale - 1
            &&& m is ZoomOut && s.ui_scale == 5 ==> after.ui_scale == s.ui_scale
            &&& !(m is ZoomIn || m is ZoomOut) ==> after.ui_scale == s.ui_scale
            &&& m is ZoomIn || m is ZoomOut ==> after == (AppView {
                ui_scale: after.ui_scale,
                ..s
            })
        }),
{
}

/// The graphics processor is looked for when its use is first asked for, or asked for again after
/// it was given back. Once it is found it is used, and once it is not found it is never used.
/// Switching it off stops its use at once and gives it back.
pub proof fn law_graphics_processor_is_used_when_asked_for(
    s: AppView,
    m: Message,
    millis: u64,
    a: Action,
)
    requires
        s.valid(),
        s.causes(m, a),
    ensures
        ({
            let after = s.after(m, millis);
            &&& a is ProbeGpu <==> (m matches Message::ToggleGpu(true)) && (s.gpu_init
                == GpuInitState::NotProbed || s.gpu_init == GpuInitState::Capable)
            &&& a is ProbeGpu ==> after.gpu_init == GpuInitState::Probing
                && after.pending_gpu_enable && !after.use_gpu
            &&& a is ReleaseGpu <==> (m matches Message::ToggleGpu(false)) && s.gpu_init
                == GpuInitState::Ready
            &&& a is ReleaseGpu ==> after.gpu_init == GpuInitState::Capable
            &&& m matches Message::ToggleGpu(false) ==> !after.use_gpu
            &&& m matches Message::ToggleGpu(true) ==> (s.gpu_init == GpuInitState::Ready
                <==> after.use_gpu)
            &&& m matches Message::GpuInitialized(true) ==> after.gpu_init == GpuInitState::Ready
                && after.use_gpu == (s.use_gpu || s.pending_gpu_enable)
                && !after.pending_gpu_enable && after.status == s.status
            &&& m matches Message::GpuInitialized(false) ==> after.gpu_init
                == GpuInitState::Unavailable && !after.use_gpu && !after.pending_gpu_enable
            &&& m matches Message::GpuInitialized(false) ==> after.status
                == if s.pending_gpu_enable {
                StatusView::Error("No compatible GPU adapter was found."@)
            } else {
                s.status
            }
            &&& s.gpu_init == GpuInitState::Unavailable && !(m is GpuInitialized)
                ==> after.gpu_init == GpuInitState::Unavailable && !after.use_gpu
            &&& !(m is ToggleGpu || m is GpuInitialized) ==> after.gpu_init == s.gpu_init
                && after.use_gpu == s.use_gpu && after.pending_gpu_enable == s.pending_gpu_enable
        }),
{
}

/// The texts of the status: the time is the number of seconds that is nearest to the milliseconds.
pub proof fn law_status_text_tells_time_and_count(n: usize, millis: u64)
    ensures
        exists|seconds: int|
            {
                &&& -500 < 1000 * seconds - millis <= 500
                &&& status_label(StatusView::Found(n, millis)) == crate::text::coord_count_label(
                    n as int,
                ) + " found  ("@ + (#[trigger] crate::text::duration_label(seconds)) + ")"@
                &&& status_label(StatusView::Cancelled(n, millis)) == "Cancelled after "@
                    + crate::text::duration_label(seconds) + "; "@
                    + crate::text::coord_count_label(n as int) + " found."@
            },
{
    let seconds = (millis + 500) / 1000;
    assert(status_label(StatusView::Found(n, millis)) == crate::text::coord_count_label(n as int)
        + " found  ("@ + crate::text::duration_label(seconds) + ")"@);
}

/// A line of the list of matches shows the number of the match, aligned to the right in four
/// places, and both coordinates, x aligned to the left in ten places. Nothing is cut off.
pub proof fn law_line_shows_match(n: int, x: int, z: int)
    requires
        0 <= n,
    ensures
        exists|a: nat, b: nat|
            {
                &&& (a == 0 && crate::text::decimal(n).len() >= 4) || a + crate::text::decimal(
                    n,
                ).len() == 4
                &&& (b == 0 && crate::text::signed_decimal(x).len() >= 10) || b
                    + crate::text::signed_decimal(x).len() == 10
                &&& match_line(n, x, z) == #[trigger] spaces(a) + crate::text::decimal(n)
                    + ".   X: "@ + crate::text::signed_decimal(x) + #[trigger] spaces(b) + "  Z: "@
                    + crate::text::signed_decimal(z)
            },
{
    let d = crate::text::decimal(n);
    let t = crate::text::signed_decimal(x);
    let a: nat = if d.len() < 4 {
        (4 - d.len()) as nat
    } else {
        0
    };
    let b: nat = if t.len() < 10 {
        (10 - t.len()) as nat
    } else {
        0
    };
    assert(match_line(n, x, z) =~= spaces(a) + d + ".   X: "@ + t + spaces(b) + "  Z: "@
        + crate::text::signed_decimal(z));
}

/// A number of spaces.
pub open spec fn spaces(n: nat) -> Seq<char> {
    Seq::new(n, |i: int| ' ')
}

/// The text of a layer's tab is the height of the layer, with a star exactly if some cell of the
/// layer is known.
pub proof fn law_tab_shows_height_and_knowledge(s: AppView, y: int)
    requires
        s.valid(),
        0 <= y < 4,
    ensures
        ({
            let height = if s.bedrock_type is Floor {
                -60 - y
            } else {
                124 + y
            };
            let text = crate::text::signed_decimal(height);
            let known = exists|r: int, c: int|
                0 <= r < s.grid_rows && 0 <= c < s.grid_cols && #[trigger] s.grid[y][r][c]
                    != CellState::Unknown;
            &&& known ==> layer_tab_label(s, y) == text.push('*')
            &&& !known ==> layer_tab_label(s, y) == text
        }),
{
    reveal_strlit("*");
    assert(crate::grid::layer_is(s.grid[y], s.grid_rows, s.grid_cols));
    let height = crate::bedrock::layer_heights(s.bedrock_type)[y];
    let text = crate::text::signed_decimal(height);
    assert("*"@ =~= seq!['*']);
    assert(text + "*"@ =~= text.push('*'));
    if exists|r: int, c: int|
        0 <= r < s.grid_rows && 0 <= c < s.grid_cols && #[trigger] s.grid[y][r][c]
            != CellState::Unknown {
        let (r, c) = choose|r: int, c: int|
            0 <= r < s.grid_rows && 0 <= c < s.grid_cols && #[trigger] s.grid[y][r][c]
                != CellState::Unknown;
        assert(s.grid[y][r].len() == s.grid_cols);
        assert(crate::grid::layer_known(s.grid[y]));
    }
    if crate::grid::layer_known(s.grid[y]) {
        let layer = s.grid[y];
        let (r, c) = choose|r: int, c: int|
            0 <= r < layer.len() && 0 <= c < layer[r].len() && #[trigger] layer[r][c]
                != CellState::Unknown;
        assert(s.grid[y][r].len() == s.grid_cols);
        assert(s.grid[y][r][c] != CellState::Unknown);
    }
}

/// Every message can be handled but one that names a layer or a cell that does not exist or an
/// index beyond the last one, and a search for a pattern whose coordinates do not fit.
pub proof fn law_messages_that_can_be_handled(s: AppView, m: Message)
    requires
        s.valid(),
    ensures
        m matches Message::GridYChanged(y) ==> (s.accepts(m) <==> y < 4),
        m matches Message::GridCellClicked(r, c) ==> (s.accepts(m) <==> r < s.grid_rows && c
            < s.grid_cols),
        m matches Message::GridCellRightClicked(r, c) ==> (s.accepts(m) <==> r < s.grid_rows && c
            < s.grid_cols),
        m matches Message::SearchProgress(k) ==> k <= 9_223_372_030_926_249_000 ==> s.accepts(m),
        m is Search && offset_of(s.grid_offset_x) <= 0x7FFF_FFF0 && offset_of(s.grid_offset_z)
            <= 0x7FFF_FFF0 ==> s.accepts(m),
        m is Search && crate::text::parsed(s.seed, i64::MIN as int, i64::MAX as int) is None
            ==> s.accepts(m),
        !(m is GridYChanged || m is GridCellClicked || m is GridCellRightClicked
            || m is SearchProgress || m is Search) ==> s.accepts(m),
{
    crate::grid::law_pattern_fits_in_range(
        s.grid,
        offset_of(s.grid_offset_x),
        offset_of(s.grid_offset_z),
        s.grid_rows,
        s.grid_cols,
    );
}

/// The other texts of the status show what they are about in full.
pub proof fn law_status_text_shows_area_and_error(text: Seq<char>)
    ensures
        status_label(StatusView::Searching(text)) == "Searching "@ + text + "\u{2026}"@,
        status_label(StatusView::Error(text)) == "Error: "@ + text,
{
}

/// The switch for the graphics processor says that it is used exactly if it is.
pub proof fn law_switch_tells_use(s: AppView)
    requires
        s.valid(),
    ensures
        s.use_gpu ==> gpu_switch_label(s) == "GPU search enabled (faster)"@,
        s.gpu_init == GpuInitState::Probing ==> gpu_switch_label(s)
            == "Checking for a GPU\u{2026}"@,
        s.gpu_init == GpuInitState::Unavailable ==> gpu_switch_label(s)
            == "GPU not available on this system"@,
        !s.use_gpu && s.gpu_init != GpuInitState::Probing && s.gpu_init
            != GpuInitState::Unavailable ==> gpu_switch_label(s) == "Use GPU for search"@,
{
}

} // verus!
