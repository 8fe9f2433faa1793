use hackrf_spectrum_analyzer::color::{color_map, color_of_db};
use hackrf_spectrum_analyzer::downscale::DownscaleMode;
use hackrf_spectrum_analyzer::history::HistoryBuffer;
use hackrf_spectrum_analyzer::render::{density_colors, density_grid, waterfall_rows};
use hackrf_spectrum_analyzer::session::{
    command_for_key, Action, AppEvent, UserCommand, ViewState, VisualizationMode, WATERFALL_LINES,
};
use hackrf_spectrum_analyzer::sweep::Sweep;

fn sweep(db: Vec<i64>) -> Sweep {
    Sweep { hz_low: 0, hz_high: 10, hz_bin_width: 1000, db }
}

#[test]
fn keys_map_to_commands() {
    assert_eq!(command_for_key('r'), Some(UserCommand::Reset));
    assert_eq!(command_for_key('m'), Some(UserCommand::ToggleMode));
    assert_eq!(command_for_key('d'), Some(UserCommand::ToggleDownscale));
    assert_eq!(command_for_key('q'), Some(UserCommand::Quit));
    assert_eq!(command_for_key('x'), None);
}

#[test]
fn starts_empty() {
    let s = ViewState::new();
    assert!(s.current_sweep.is_none());
    assert!(s.history.is_empty());
    assert_eq!(s.history.capacity(), WATERFALL_LINES);
    assert_eq!(s.visualization_mode, VisualizationMode::Waterfall);
    assert_eq!(s.downscale_mode, DownscaleMode::Peak);
}

#[test]
fn events_change_state() {
    let mut s = ViewState::new();
    assert_eq!(s.handle_event(AppEvent::NewSweep(sweep(vec![1, 2]))), Action::Redraw);
    assert_eq!(s.handle_event(AppEvent::NewSweep(sweep(vec![3]))), Action::Redraw);
    assert_eq!(s.current_sweep.as_ref().unwrap().db, vec![3]);
    assert_eq!(s.history.len(), 2);
    assert_eq!(s.history.get(0).db, vec![3]);
    assert_eq!(s.history.get(1).db, vec![1, 2]);
    assert_eq!(s.handle_event(AppEvent::Key('m')), Action::Redraw);
    assert_eq!(s.visualization_mode, VisualizationMode::Spectrum);
    assert_eq!(s.handle_event(AppEvent::Key('d')), Action::Redraw);
    assert_eq!(s.downscale_mode, DownscaleMode::Average);
    assert_eq!(s.history.len(), 2);
    assert_eq!(s.handle_event(AppEvent::Key('z')), Action::Ignore);
    assert_eq!(s.handle_event(AppEvent::Key('r')), Action::Redraw);
    assert!(s.current_sweep.is_none());
    assert!(s.history.is_empty());
    assert_eq!(s.visualization_mode, VisualizationMode::Spectrum);
    assert_eq!(s.handle_event(AppEvent::Key('q')), Action::Exit);
    assert_eq!(s.handle_event(AppEvent::Quit), Action::Exit);
    assert_eq!(s.handle_event(AppEvent::Closed), Action::Exit);
}

#[test]
fn history_is_bounded() {
    let mut s = ViewState::new();
    for i in 0..(WATERFALL_LINES + 5) {
        s.update_data(sweep(vec![i as i64]));
    }
    assert_eq!(s.history.len(), WATERFALL_LINES);
    assert_eq!(s.history.get(0).db, vec![(WATERFALL_LINES + 4) as i64]);
}

#[test]
fn waterfall_rows_are_downscaled_and_colored() {
    let mut h = HistoryBuffer::new(5);
    h.push_front(sweep(vec![-90000, -90000, -10000, -10000]));
    h.push_front(sweep(vec![-10000, -10000, -90000, -90000]));
    let rows = waterfall_rows(&h, 2, 1, DownscaleMode::Peak, -90000, -10000);
    assert_eq!(rows.len(), 1);
    assert_eq!(rows[0], vec![color_of_db(-10000, -90000, -10000), color_of_db(-90000, -90000, -10000)]);
    let rows = waterfall_rows(&h, 2, 10, DownscaleMode::Average, -90000, -10000);
    assert_eq!(rows.len(), 2);
    assert_eq!(rows[1], vec![color_of_db(-90000, -90000, -10000), color_of_db(-10000, -90000, -10000)]);
}

#[test]
fn density_counts_readings_per_cell() {
    // 4 readings on a 5 by 4 chart: columns 4*i/4 = 0, 1, 2, 3
    let db = vec![-50000, -50000, -50000, -10000];
    let grid = density_grid(&db, 5, 4, -90000, -10000);
    assert_eq!(grid.len(), 20);
    // position 0.5 on 4 rows is row 2; the top reading is row 4, off the chart
    assert_eq!(grid[1 * 4 + 2], 1);
    assert_eq!(grid[2 * 4 + 2], 1);
    assert_eq!(grid[0 * 4 + 2], 0);
    assert_eq!(grid.iter().sum::<usize>(), 2);
}

#[test]
fn dense_cells_are_colored_by_count() {
    let db = vec![-50000; 8];
    let grid = density_grid(&db, 3, 4, -90000, -10000);
    // x = 2*i/8: readings 4..8 land in column 1
    assert_eq!(grid[1 * 4 + 2], 4);
    let colors = density_colors(&grid);
    assert_eq!(colors[1 * 4 + 2], Some(color_map(4, 4)));
    assert_eq!(colors[0], None);
}
