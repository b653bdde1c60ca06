//! The state of the window.
use bedrockformation::bedrock::{BedrockType, Block};
use bedrockformation::grid::{make_grid, CellState};
use bedrockformation::gui::{
    request_rotations, result_line, zoom_key, Action, App, GpuInitState, Message, SearchRequest,
    SearchStatus,
};
use bedrockformation::text::area_label_from_l;

fn send(app: &mut App, m: Message) -> Action {
    assert!(app.accepts(&m));
    app.update(m, 1500)
}

fn enter(app: &mut App, m: Message) {
    assert!(matches!(send(app, m), Action::Nothing));
}

fn started(app: &mut App) -> SearchRequest {
    enter(app, Message::SeedChanged("124352345".to_string()));
    match send(app, Message::Search) {
        Action::StartSearch(r) => r,
        _ => panic!("the search starts"),
    }
}

fn error(app: &App) -> String {
    match &app.status {
        SearchStatus::Error(e) => e.clone(),
        _ => panic!("an error is shown"),
    }
}

#[test]
fn first_state() {
    let app = App::default();
    assert_eq!(app.seed, "");
    assert_eq!((app.center_x.as_str(), app.center_z.as_str()), ("0", "0"));
    assert_eq!((app.grid_cols, app.grid_rows), (8, 8));
    assert_eq!((app.grid_cols_str.as_str(), app.grid_rows_str.as_str()), ("8", "8"));
    assert_eq!(app.grid_cells, make_grid(8, 8));
    assert_eq!((app.dup_count_str.as_str(), app.dup_count), ("1", 1));
    assert_eq!(app.ui_scale, 10);
    assert!(matches!(app.status, SearchStatus::Idle));
    assert_eq!(app.status_text(), "Ready.");
    assert_eq!(app.zoom_label(), "Zoom: 100%");
    assert_eq!(app.gpu_label(), "Use GPU for search");
    assert!(!app.is_searching());
}

#[test]
fn entering_texts() {
    let mut app = App::default();
    enter(&mut app, Message::SeedChanged("a".to_string()));
    enter(&mut app, Message::CenterXChanged("b".to_string()));
    enter(&mut app, Message::CenterZChanged("c".to_string()));
    enter(&mut app, Message::GridOffsetXChanged("d".to_string()));
    enter(&mut app, Message::GridOffsetZChanged("e".to_string()));
    assert_eq!(app.seed, "a");
    assert_eq!(app.center_x, "b");
    assert_eq!(app.center_z, "c");
    assert_eq!(app.grid_offset_x, "d");
    assert_eq!(app.grid_offset_z, "e");
}

#[test]
fn sizes_of_the_grid() {
    let mut app = App::default();
    enter(&mut app, Message::GridCellClicked(1, 2));
    for (text, n) in [("3", 3), ("0", 1), ("99", 16), ("x", 16), ("", 16), ("5", 5)] {
        enter(&mut app, Message::GridColsChanged(text.to_string()));
        assert_eq!(app.grid_cols_str, text);
        assert_eq!(app.grid_cols, n);
        assert!(app.grid_cells.iter().all(|l| l.iter().all(|r| r.len() == n)));
    }
    for (text, n) in [("2", 2), ("18446744073709551616", 2), ("+4", 4)] {
        enter(&mut app, Message::GridRowsChanged(text.to_string()));
        assert_eq!(app.grid_rows_str, text);
        assert_eq!(app.grid_rows, n);
        assert!(app.grid_cells.iter().all(|l| l.len() == n));
    }
}

#[test]
fn enlarging_keeps_the_cells() {
    let mut app = App::default();
    enter(&mut app, Message::GridCellClicked(1, 2));
    let before = app.grid_cells.clone();
    enter(&mut app, Message::GridColsChanged("12".to_string()));
    enter(&mut app, Message::GridRowsChanged("9".to_string()));
    assert_eq!(app.grid_cells[0][1][2], CellState::NonBedrock);
    enter(&mut app, Message::GridColsChanged("8".to_string()));
    enter(&mut app, Message::GridRowsChanged("8".to_string()));
    assert_eq!(app.grid_cells, before);
}

#[test]
fn clicks_step_and_cancel() {
    let mut app = App::default();
    enter(&mut app, Message::GridYChanged(2));
    enter(&mut app, Message::GridCellClicked(3, 4));
    assert_eq!(app.grid_cells[2][3][4], CellState::NonBedrock);
    enter(&mut app, Message::GridCellClicked(3, 4));
    assert_eq!(app.grid_cells[2][3][4], CellState::Bedrock);
    enter(&mut app, Message::GridCellRightClicked(3, 4));
    enter(&mut app, Message::GridCellRightClicked(3, 4));
    assert_eq!(app.grid_cells, make_grid(8, 8));
    enter(&mut app, Message::GridCellRightClicked(0, 0));
    assert_eq!(app.grid_cells[2][0][0], CellState::Bedrock);
}

#[test]
fn rotating_and_back() {
    let mut app = App::default();
    enter(&mut app, Message::GridColsChanged("3".to_string()));
    enter(&mut app, Message::GridRowsChanged("2".to_string()));
    enter(&mut app, Message::GridCellClicked(0, 2));
    let before = app.grid_cells.clone();
    enter(&mut app, Message::RotateCW);
    assert_eq!((app.grid_rows, app.grid_cols), (3, 2));
    assert_eq!((app.grid_rows_str.as_str(), app.grid_cols_str.as_str()), ("3", "2"));
    assert_eq!(app.grid_cells[0][2][1], CellState::NonBedrock);
    enter(&mut app, Message::RotateCCW);
    assert_eq!(app.grid_cells, before);
    enter(&mut app, Message::RotateCCW);
    assert_eq!(app.grid_cells[0][0][0], CellState::NonBedrock);
    enter(&mut app, Message::RotateCW);
    assert_eq!(app.grid_cells, before);
}

#[test]
fn filling_and_clearing() {
    let mut app = App::default();
    enter(&mut app, Message::GridCellRightClicked(0, 0));
    enter(&mut app, Message::FillUnknownNonBedrockLayer);
    assert_eq!(app.grid_cells[0][0][0], CellState::Bedrock);
    assert_eq!(app.grid_cells[0][7][7], CellState::NonBedrock);
    assert_eq!(app.grid_cells[1], make_grid(8, 8)[1]);
    assert_eq!(app.layer_label(0), "-60*");
    assert_eq!(app.layer_label(1), "-61");
    enter(&mut app, Message::ClearGrid);
    assert_eq!(app.grid_cells, make_grid(8, 8));
}

#[test]
fn changing_the_layer_clears_the_grid() {
    let mut app = App::default();
    enter(&mut app, Message::GridYChanged(3));
    enter(&mut app, Message::GridCellClicked(0, 0));
    enter(&mut app, Message::TypeChanged(BedrockType::Roof));
    assert_eq!(app.bedrock_type, BedrockType::Roof);
    assert_eq!(app.grid_y_idx, 0);
    assert_eq!(app.grid_cells, make_grid(8, 8));
    assert_eq!(app.layer_label(3), "127");
}

#[test]
fn numbers_of_matches() {
    let mut app = App::default();
    for (text, n) in [("5", 5), ("x", 5), ("0", 0), ("", 1), ("-1", 1)] {
        enter(&mut app, Message::DupCountChanged(text.to_string()));
        assert_eq!((app.dup_count_str.as_str(), app.dup_count), (text, n));
    }
}

#[test]
fn zooming() {
    let mut app = App::default();
    for _ in 0..15 {
        enter(&mut app, Message::ZoomIn);
    }
    assert_eq!(app.ui_scale, 20);
    assert_eq!(app.zoom_label(), "Zoom: 200%");
    for _ in 0..30 {
        enter(&mut app, Message::ZoomOut);
    }
    assert_eq!(app.ui_scale, 5);
    assert_eq!(app.zoom_label(), "Zoom: 50%");
    assert!(matches!(zoom_key(true, "+"), Some(Message::ZoomIn)));
    assert!(matches!(zoom_key(true, "="), Some(Message::ZoomIn)));
    assert!(matches!(zoom_key(true, "-"), Some(Message::ZoomOut)));
    assert!(zoom_key(true, "a").is_none());
    assert!(zoom_key(true, "").is_none());
    assert!(zoom_key(true, "+-").is_none());
    assert!(zoom_key(false, "+").is_none());
}

#[test]
fn refused_searches() {
    let mut app = App::default();
    enter(&mut app, Message::Search);
    assert_eq!(error(&app), "Invalid seed. Please set a valid 64-bit integer.");
    assert_eq!(app.status_text(), "Error: Invalid seed. Please set a valid 64-bit integer.");
    enter(&mut app, Message::SeedChanged("1".to_string()));
    enter(&mut app, Message::CenterXChanged("2147483648".to_string()));
    enter(&mut app, Message::Search);
    assert_eq!(error(&app), "Invalid center X");
    enter(&mut app, Message::CenterXChanged("7".to_string()));
    enter(&mut app, Message::CenterZChanged("".to_string()));
    enter(&mut app, Message::Search);
    assert_eq!(error(&app), "Invalid center Z");
    assert!(!app.worker_running);
}

#[test]
fn started_search() {
    let mut app = App::default();
    enter(&mut app, Message::CenterXChanged("-12".to_string()));
    enter(&mut app, Message::CenterZChanged("+30".to_string()));
    enter(&mut app, Message::GridOffsetXChanged("5".to_string()));
    enter(&mut app, Message::GridOffsetZChanged("no".to_string()));
    enter(&mut app, Message::GridYChanged(1));
    enter(&mut app, Message::GridCellRightClicked(2, 3));
    enter(&mut app, Message::ToggleAllRotations(true));
    enter(&mut app, Message::DupCountChanged("4".to_string()));
    enter(&mut app, Message::FoundUpdate(vec![(1, 1)]));
    let r = started(&mut app);
    assert_eq!((r.seed, r.start_x, r.start_z), (124352345, -12, 30));
    assert_eq!(r.bedrock_type, BedrockType::Floor);
    assert_eq!(r.blocks.len(), 1);
    let b = r.blocks[0];
    assert_eq!((b.x, b.y, b.z, b.should_be_bedrock), (8, -61, 2, true));
    assert_eq!(b.prob_threshold, 6710886);
    assert!(r.all_rotations);
    assert_eq!(r.dup_target, 4);
    assert!(!r.use_gpu);
    assert!(app.is_searching());
    assert!(app.worker_running);
    assert!(app.found_coords.is_empty());
    assert_eq!(app.status_text(), "Searching 0 x 0\u{2026}");
}

#[test]
fn rotations_of_a_request() {
    let mut app = App::default();
    enter(&mut app, Message::GridCellClicked(0, 0));
    enter(&mut app, Message::GridCellClicked(0, 1));
    let mut request = started(&mut app);
    assert!(!request.all_rotations);
    let places = |v: &Vec<Vec<Block>>| -> Vec<Vec<(i32, i32)>> {
        v.iter().map(|p| p.iter().map(|b| (b.x, b.z)).collect()).collect()
    };
    assert_eq!(places(&request_rotations(&request)), vec![vec![(0, 0), (1, 0)]]);
    request.all_rotations = true;
    assert_eq!(
        places(&request_rotations(&request)),
        vec![vec![(0, 0), (1, 0)], vec![(0, 0), (0, 1)]]
    );
}

#[test]
fn searches_whose_pattern_does_not_fit() {
    let mut app = App::default();
    enter(&mut app, Message::GridOffsetXChanged("2147483640".to_string()));
    enter(&mut app, Message::SeedChanged("1".to_string()));
    assert!(app.accepts(&Message::Search));
    enter(&mut app, Message::GridCellClicked(0, 7));
    assert!(app.accepts(&Message::Search));
    enter(&mut app, Message::GridOffsetXChanged("2147483641".to_string()));
    assert!(!app.accepts(&Message::Search));
    enter(&mut app, Message::SeedChanged("".to_string()));
    assert!(app.accepts(&Message::Search));
}

#[test]
fn messages_that_cannot_be_handled() {
    let app = App::default();
    assert!(!app.accepts(&Message::GridYChanged(4)));
    assert!(!app.accepts(&Message::GridCellClicked(8, 0)));
    assert!(!app.accepts(&Message::GridCellRightClicked(0, 8)));
    assert!(!app.accepts(&Message::SearchProgress(i64::MAX)));
    assert!(app.accepts(&Message::SearchProgress(9_223_372_030_926_249_000)));
}

#[test]
fn progress_of_a_search() {
    let mut app = App::default();
    enter(&mut app, Message::SearchProgress(1_000_000));
    assert_eq!(app.status_text(), "Ready.");
    started(&mut app);
    enter(&mut app, Message::SearchProgress(-1));
    assert_eq!(app.status_text(), "Searching 0 x 0\u{2026}");
    enter(&mut app, Message::SearchProgress(8));
    assert_eq!(app.status_text(), "Searching 3 x 3\u{2026}");
    enter(&mut app, Message::SearchProgress(9));
    assert_eq!(app.status_text(), "Searching 5 x 5\u{2026}");
    enter(&mut app, Message::SearchProgress(16_777_216));
    let shell = 2048;
    assert_eq!(app.area_label_l, shell);
    assert_eq!(app.status_text(), format!("Searching {}\u{2026}", area_label_from_l(shell)));
    enter(&mut app, Message::SearchProgress(9));
    assert_eq!(app.area_label_l, shell);
    enter(&mut app, Message::SearchProgress(0));
    assert_eq!(app.status_text(), "Searching 0 x 0\u{2026}");
}

#[test]
fn cancelling() {
    let mut app = App::default();
    enter(&mut app, Message::Cancel);
    assert_eq!(app.status_text(), "Cancelled after 00:00; 0 coordinates found.");
    started(&mut app);
    enter(&mut app, Message::FoundUpdate(vec![(5, 6)]));
    assert!(matches!(send(&mut app, Message::Cancel), Action::RaiseCancel));
    assert_eq!(app.status_text(), "Cancelled after 00:02; 1 coordinate found.");
    assert!(app.worker_running);
    let done = Message::SearchDone(Ok((vec![(5, 6), (7, 8)], true)));
    assert!(matches!(send(&mut app, done), Action::ReleaseWorker));
    assert_eq!(app.status_text(), "Cancelled after 00:02; 2 coordinates found.");
    assert_eq!(app.found_coords, vec![(5, 6), (7, 8)]);
    assert!(!app.worker_running);
}

#[test]
fn finishing() {
    let mut app = App::default();
    started(&mut app);
    let done = Message::SearchDone(Ok((vec![(5, 6)], false)));
    assert!(matches!(send(&mut app, done), Action::ReleaseWorker));
    assert_eq!(app.status_text(), "1 coordinate found  (00:02)");
    started(&mut app);
    enter(&mut app, Message::FoundUpdate(vec![(9, 9)]));
    let failed = Message::SearchDone(Err("No solution exists.".to_string()));
    assert!(matches!(send(&mut app, failed), Action::ReleaseWorker));
    assert_eq!(app.status_text(), "Error: No solution exists.");
    assert_eq!(app.found_coords, vec![(9, 9)]);
}

#[test]
fn graphics_processor_found() {
    let mut app = App::default();
    assert!(matches!(send(&mut app, Message::ToggleGpu(true)), Action::ProbeGpu));
    assert_eq!(app.gpu_init, GpuInitState::Probing);
    assert_eq!(app.gpu_label(), "Checking for a GPU\u{2026}");
    enter(&mut app, Message::ToggleGpu(true));
    enter(&mut app, Message::GpuInitialized(true));
    assert!(app.use_gpu);
    assert_eq!(app.gpu_label(), "GPU search enabled (faster)");
    assert!(started(&mut app).use_gpu);
    assert!(matches!(send(&mut app, Message::ToggleGpu(false)), Action::ReleaseGpu));
    assert_eq!(app.gpu_init, GpuInitState::Capable);
    assert_eq!(app.gpu_label(), "Use GPU for search");
    enter(&mut app, Message::ToggleGpu(false));
    assert!(matches!(send(&mut app, Message::ToggleGpu(true)), Action::ProbeGpu));
}

#[test]
fn graphics_processor_missing() {
    let mut app = App::default();
    assert!(matches!(send(&mut app, Message::ToggleGpu(true)), Action::ProbeGpu));
    enter(&mut app, Message::GpuInitialized(false));
    assert_eq!(error(&app), "No compatible GPU adapter was found.");
    assert_eq!(app.gpu_label(), "GPU not available on this system");
    enter(&mut app, Message::ToggleGpu(true));
    assert!(!app.use_gpu);
    assert_eq!(app.gpu_init, GpuInitState::Unavailable);
}

#[test]
fn lines_of_the_list() {
    assert_eq!(result_line(1, 73, -41), format!("{:>4}.   X: {:<10}  Z: {}", 1, 73, -41));
    assert_eq!(result_line(12345, -2147483648, 0), "12345.   X: -2147483648  Z: 0");
    assert_eq!(result_line(9999, 1, 2), "9999.   X: 1           Z: 2");
}
