//! The state of a live display and how each event changes it.
//!
//! One loop owns this state. Sweeps and key presses reach it as events; for
//! each event it gets the new state and what to do next: draw again, carry
//! on, or stop.
use vstd::prelude::*;
use crate::downscale::DownscaleMode;
use crate::history::{lemma_keeps_most_recent, pushed, pushed_all, reversed, HistoryBuffer};
use crate::sweep::{Sweep, SweepView};

verus! {

/// Rows of history kept for the waterfall.
pub const WATERFALL_LINES: usize = 200;

#[derive(Debug, Clone, Copy, PartialEq, Eq, Structural)]
pub enum VisualizationMode {
    Spectrum,
    Waterfall,
}

#[derive(Debug, Clone, Copy, PartialEq, Eq, Structural)]
pub enum UserCommand {
    Reset,
    ToggleMode,
    ToggleDownscale,
    Quit,
}

pub enum AppEvent {
    Key(char),
    NewSweep(Sweep),
    Quit,
    /// Nothing more can arrive.
    Closed,
}

#[derive(Debug, Clone, Copy, PartialEq, Eq, Structural)]
pub enum Action {
    Redraw,
    Ignore,
    Exit,
}

pub open spec fn key_command(c: char) -> Option<UserCommand> {
    if c == 'r' {
        Some(UserCommand::Reset)
    } else if c == 'm' {
        Some(UserCommand::ToggleMode)
    } else if c == 'd' {
        Some(UserCommand::ToggleDownscale)
    } else if c == 'q' {
        Some(UserCommand::Quit)
    } else {
        None
    }
}

/// The command bound to a key, if any.
pub fn command_for_key(c: char) -> (r: Option<UserCommand>)
    ensures
        r == key_command(c),
{
    if c == 'r' {
        Some(UserCommand::Reset)
    } else if c == 'm' {
        Some(UserCommand::ToggleMode)
    } else if c == 'd' {
        Some(UserCommand::ToggleDownscale)
    } else if c == 'q' {
        Some(UserCommand::Quit)
    } else {
        None
    }
}

pub open spec fn toggled_mode(m: VisualizationMode) -> VisualizationMode {
    match m {
        VisualizationMode::Spectrum => VisualizationMode::Waterfall,
        VisualizationMode::Waterfall => VisualizationMode::Spectrum,
    }
}

pub open spec fn toggled_downscale(m: DownscaleMode) -> DownscaleMode {
    match m {
        DownscaleMode::Peak => DownscaleMode::Average,
        DownscaleMode::Average => DownscaleMode::Peak,
    }
}

pub struct ViewState {
    pub current_sweep: Option<Sweep>,
    pub history: HistoryBuffer<Sweep>,
    pub visualization_mode: VisualizationMode,
    pub downscale_mode: DownscaleMode,
}

pub struct StateView {
    pub current: Option<SweepView>,
    pub history: Seq<SweepView>,
    pub capacity: nat,
    pub visualization_mode: VisualizationMode,
    pub downscale_mode: DownscaleMode,
}

pub enum EventView {
    Key(char),
    NewSweep(SweepView),
    Quit,
    Closed,
}

pub open spec fn sweep_views(s: Seq<Sweep>) -> Seq<SweepView> {
    s.map_values(|w: Sweep| w@)
}

impl View for ViewState {
    type V = StateView;

    open spec fn view(&self) -> StateView {
        StateView {
            current: match self.current_sweep {
                Some(s) => Some(s@),
                None => None,
            },
            history: sweep_views(self.history@),
            capacity: self.history.spec_capacity(),
            visualization_mode: self.visualization_mode,
            downscale_mode: self.downscale_mode,
        }
    }
}

impl View for AppEvent {
    type V = EventView;

    open spec fn view(&self) -> EventView {
        match self {
            AppEvent::Key(c) => EventView::Key(*c),
            AppEvent::NewSweep(s) => EventView::NewSweep(s@),
            AppEvent::Quit => EventView::Quit,
            AppEvent::Closed => EventView::Closed,
        }
    }
}

/// The state after `e`, and what to do next. A new sweep becomes the
/// current one and the newest row of history; `r` clears both, `m` and `d`
/// switch the view and the downscale mode; `q`, a quit request or a closed
/// source end the loop; other keys change nothing.
pub open spec fn step(s: StateView, e: EventView) -> (StateView, Action) {
    match e {
        EventView::Key(c) => match key_command(c) {
            Some(UserCommand::Reset) => (
                StateView { current: None, history: Seq::empty(), ..s },
                Action::Redraw,
            ),
            Some(UserCommand::ToggleMode) => (
                StateView { visualization_mode: toggled_mode(s.visualization_mode), ..s },
                Action::Redraw,
            ),
            Some(UserCommand::ToggleDownscale) => (
                StateView { downscale_mode: toggled_downscale(s.downscale_mode), ..s },
                Action::Redraw,
            ),
            Some(UserCommand::Quit) => (s, Action::Exit),
            None => (s, Action::Ignore),
        },
        EventView::NewSweep(w) => (
            StateView { current: Some(w), history: pushed(s.history, s.capacity, w), ..s },
            Action::Redraw,
        ),
        EventView::Quit => (s, Action::Exit),
        EventView::Closed => (s, Action::Exit),
    }
}

impl ViewState {
    pub open spec fn wf(&self) -> bool {
        self.history.wf()
    }

    /// Nothing shown yet, the waterfall view, peak downscaling.
    pub fn new() -> (r: ViewState)
        ensures
            r.wf(),
            r@.current is None,
            r@.history == Seq::<SweepView>::empty(),
            r@.capacity == WATERFALL_LINES,
            r@.visualization_mode == VisualizationMode::Waterfall,
            r@.downscale_mode == DownscaleMode::Peak,
    {
        let r = ViewState {
            current_sweep: None,
            history: HistoryBuffer::new(WATERFALL_LINES),
            visualization_mode: VisualizationMode::Waterfall,
            downscale_mode: DownscaleMode::Peak,
        };
        assert(r@.history =~= Seq::<SweepView>::empty());
        r
    }

    /// Makes `sweep` the current sweep and the newest row of history.
    pub fn update_data(&mut self, sweep: Sweep)
        requires
            old(self).wf(),
        ensures
            final(self).wf(),
            final(self)@ == (StateView {
                current: Some(sweep@),
                history: pushed(old(self)@.history, old(self)@.capacity, sweep@),
                ..old(self)@
            }),
    {
        let ghost before = self.history@;
        let row = sweep.duplicate();
        self.history.push_front(row);
        self.current_sweep = Some(sweep);
        assert(sweep_views(self.history@) =~= pushed(sweep_views(before), self.history.spec_capacity(), sweep@));
    }

    /// Applies one event.
    pub fn handle_event(&mut self, event: AppEvent) -> (r: Action)
        requires
            old(self).wf(),
        ensures
            final(self).wf(),
            (final(self)@, r) == step(old(self)@, event@),
    {
        match event {
            AppEvent::Key(c) => match command_for_key(c) {
                Some(UserCommand::Reset) => {
                    self.history.clear();
                    self.current_sweep = None;
                    assert(sweep_views(self.history@) =~= Seq::<SweepView>::empty());
                    Action::Redraw
                },
                Some(UserCommand::ToggleMode) => {
                    self.visualization_mode = match self.visualization_mode {
                        VisualizationMode::Spectrum => VisualizationMode::Waterfall,
                        VisualizationMode::Waterfall => VisualizationMode::Spectrum,
                    };
                    Action::Redraw
                },
                Some(UserCommand::ToggleDownscale) => {
                    self.downscale_mode = self.downscale_mode.toggled();
                    Action::Redraw
                },
                Some(UserCommand::Quit) => Action::Exit,
                None => Action::Ignore,
            },
            AppEvent::NewSweep(sweep) => {
                self.update_data(sweep);
                Action::Redraw
            },
            AppEvent::Quit => Action::Exit,
            AppEvent::Closed => Action::Exit,
        }
    }
}


/// The state after each of `ws` arrives in turn as a new sweep.
pub open spec fn after_sweeps(s: StateView, ws: Seq<SweepView>) -> StateView
    decreases ws.len(),
{
    if ws.len() == 0 {
        s
    } else {
        step(after_sweeps(s, ws.drop_last()), EventView::NewSweep(ws.last())).0
    }
}

proof fn lemma_after_sweeps_history(s: StateView, ws: Seq<SweepView>)
    ensures
        after_sweeps(s, ws).history == pushed_all(s.history, s.capacity, ws),
        after_sweeps(s, ws).capacity == s.capacity,
    decreases ws.len(),
{
    if ws.len() > 0 {
        lemma_after_sweeps_history(s, ws.drop_last());
    }
}

/// Once at least as many sweeps as the history holds have arrived, the
/// history holds exactly that many: the most recent sweeps, newest first,
/// the older ones evicted oldest first.
pub proof fn lemma_history_after_sweeps(s: StateView, ws: Seq<SweepView>)
    requires
        s.history.len() <= s.capacity,
        ws.len() >= s.capacity,
    ensures
        after_sweeps(s, ws).history.len() == s.capacity,
        after_sweeps(s, ws).history == reversed(ws.subrange(ws.len() - s.capacity, ws.len() as int)),
        after_sweeps(s, ws).current == Some(ws.last()) || ws.len() == 0,
{
    lemma_after_sweeps_history(s, ws);
    lemma_keeps_most_recent(s.history, s.capacity, ws);
}

} // verus!
