//! Progress as text lines and as records.

use crate::config::ProgressEvent;
use crate::text::{decimal, push_decimal, push_text};
use crate::units::{count_str, human_count, is_ratio_renderer};
use vstd::prelude::*;

verus! {

/// The multiple of ten at or below a percentage.
pub open spec fn bucket_of(percent: u32) -> u32 {
    (percent as int / 10 * 10) as u32
}

/// The stage that is going on, as text lines report it.
#[derive(Debug)]
pub struct PlainProgress {
    step: u32,
    stage_name: String,
    stage_total: u64,
    last_percent: u32,
    total_steps: u32,
}

/// The stage that is going on, as records report it.
#[derive(Debug)]
pub struct JsonProgress {
    step: u32,
    stage_name: String,
    stage_total: u64,
    last_percent: u32,
    total_steps: u32,
}

/// The stage that is going on, as a tool without numbered steps reports it.
#[derive(Debug)]
pub struct StderrProgress {
    stage_name: String,
    stage_total: u64,
    last_percent: u32,
}

/// What an observer remembers of the stage that is going on.
pub struct StageView {
    pub step: u32,
    pub name: Seq<char>,
    pub total: u64,
    pub last_percent: u32,
}

/// What is remembered after an event, where `percent` of the stage is done.
pub open spec fn after_event(s: StageView, event: ProgressEvent, percent: u32) -> StageView {
    match event {
        ProgressEvent::StageStart { name, total } => StageView {
            step: if s.step == u32::MAX {
                0
            } else {
                (s.step + 1) as u32
            },
            name: name@,
            total,
            last_percent: 0,
        },
        ProgressEvent::StageProgress { done } => {
            if progress_due(s, percent) {
                StageView { last_percent: bucket_of(percent), ..s }
            } else {
                s
            }
        },
        ProgressEvent::StageDone => s,
    }
}

/// Whether progress is worth reporting: another ten percent are done, of a stage
/// whose size is known.
pub open spec fn progress_due(s: StageView, percent: u32) -> bool {
    s.total > 0 && bucket_of(percent) > s.last_percent
}

fn bucket(percent: u32) -> (b: u32)
    ensures
        b == bucket_of(percent),
{
    percent / 10 * 10
}

fn next_step(step: u32) -> (n: u32)
    ensures
        n == (if step == u32::MAX {
            0
        } else {
            step + 1
        }),
{
    if step == u32::MAX {
        0
    } else {
        step + 1
    }
}

/// The step that is going on.
pub open spec fn step_str(step: u32, total_steps: u32) -> Seq<char> {
    "["@ + decimal(step as nat) + "/"@ + decimal(total_steps as nat) + "] "@
}

/// The line that a text observer writes for an event, if any.
pub open spec fn plain_line<F: Fn(u64, u64, u32) -> String>(
    f: F,
    s: StageView,
    total_steps: u32,
    event: ProgressEvent,
    percent: u32,
) -> Option<Seq<char>> {
    let now = after_event(s, event, percent);
    let head = step_str(now.step, total_steps) + now.name;
    match event {
        ProgressEvent::StageStart { name, total } => {
            if total > 0 {
                Some(head + " started ("@ + count_str(f, total, 1) + " units)"@)
            } else {
                Some(head + " started"@)
            }
        },
        ProgressEvent::StageProgress { done } => {
            if progress_due(s, percent) {
                Some(
                    head + " "@ + decimal(now.last_percent as nat) + "% ("@ + count_str(f, done, 1)
                        + "/"@ + count_str(f, s.total, 1) + ")"@,
                )
            } else {
                None
            }
        },
        ProgressEvent::StageDone => Some(head + " done"@),
    }
}

/// The view of an optional line.
pub open spec fn opt_line(s: Option<String>) -> Option<Seq<char>> {
    match s {
        Some(t) => Some(t@),
        None => None,
    }
}

fn push_step(out: &mut String, step: u32, total_steps: u32)
    ensures
        final(out)@ == old(out)@ + step_str(step, total_steps),
{
    push_text(out, "[");
    push_decimal(out, step as u64);
    push_text(out, "/");
    push_decimal(out, total_steps as u64);
    push_text(out, "] ");
    assert(out@ =~= old(out)@ + step_str(step, total_steps));
}

impl PlainProgress {
    pub closed spec fn stage(self) -> StageView {
        StageView {
            step: self.step,
            name: self.stage_name@,
            total: self.stage_total,
            last_percent: self.last_percent,
        }
    }

    pub closed spec fn total_steps(self) -> u32 {
        self.total_steps
    }

    pub fn new(total_steps: u32) -> (p: PlainProgress)
        ensures
            p.stage() == (StageView {
                step: 0,
                name: Seq::empty(),
                total: 0,
                last_percent: 0,
            }),
            p.total_steps() == total_steps,
    {
        let p = PlainProgress {
            step: 0,
            stage_name: String::new(),
            stage_total: 0,
            last_percent: 0,
            total_steps,
        };
        assert(p.stage_name@ =~= Seq::<char>::empty());
        p
    }

    /// The total of the stage that is going on.
    pub fn stage_total(&self) -> (n: u64)
        ensures
            n == self.stage().total,
    {
        self.stage_total
    }

    /// Takes note of an event and returns the line to write for it, if any: one
    /// at the start and at the end of a stage, and one for every ten percent of
    /// a stage whose size is known. `percent` is how much of the stage is done.
    pub fn on_progress<F: Fn(u64, u64, u32) -> String>(
        &mut self,
        event: ProgressEvent,
        percent: u32,
        render: &F,
    ) -> (line: Option<String>)
        requires
            is_ratio_renderer(*render),
        ensures
            final(self).stage() == after_event(old(self).stage(), event, percent),
            final(self).total_steps() == old(self).total_steps(),
            opt_line(line) == plain_line(
                *render,
                old(self).stage(),
                old(self).total_steps(),
                event,
                percent,
            ),
    {
        let ghost before = self.stage();
        let mut s = String::new();
        match event {
            ProgressEvent::StageStart { name, total } => {
                self.step = next_step(self.step);
                self.stage_name = name.to_owned();
                self.stage_total = total;
                self.last_percent = 0;
                push_step(&mut s, self.step, self.total_steps);
                push_text(&mut s, self.stage_name.as_str());
                if total > 0 {
                    push_text(&mut s, " started (");
                    let t = human_count(total, 1, render);
                    push_text(&mut s, t.as_str());
                    push_text(&mut s, " units)");
                } else {
                    push_text(&mut s, " started");
                }
            },
            ProgressEvent::StageProgress { done } => {
                let b: u32 = bucket(percent);
                if self.stage_total == 0 || b <= self.last_percent {
                    return None;
                }
                self.last_percent = b;
                push_step(&mut s, self.step, self.total_steps);
                push_text(&mut s, self.stage_name.as_str());
                push_text(&mut s, " ");
                push_decimal(&mut s, b as u64);
                push_text(&mut s, "% (");
                let d = human_count(done, 1, render);
                push_text(&mut s, d.as_str());
                push_text(&mut s, "/");
                let t = human_count(self.stage_total, 1, render);
                push_text(&mut s, t.as_str());
                push_text(&mut s, ")");
            },
            ProgressEvent::StageDone => {
                push_step(&mut s, self.step, self.total_steps);
                push_text(&mut s, self.stage_name.as_str());
                push_text(&mut s, " done");
            },
        }
        proof {
            let want = plain_line(*render, before, self.total_steps, event, percent);
            assert(s@ =~= want->0);
        }
        Some(s)
    }
}

/// A record of a progress event.
#[derive(Debug)]
pub enum ProgressRecord {
    StageStart { stage: String, step: u32, total_steps: u32, total_units: u64 },
    StageProgress { stage: String, step: u32, total_steps: u32, done: u64, total: u64 },
    StageDone { stage: String, step: u32, total_steps: u32 },
}

/// What a record is.
pub enum RecordView {
    StageStart { stage: Seq<char>, step: u32, total_steps: u32, total_units: u64 },
    StageProgress { stage: Seq<char>, step: u32, total_steps: u32, done: u64, total: u64 },
    StageDone { stage: Seq<char>, step: u32, total_steps: u32 },
}

impl View for ProgressRecord {
    type V = RecordView;

    open spec fn view(&self) -> RecordView {
        match *self {
            ProgressRecord::StageStart { stage, step, total_steps, total_units } => {
                RecordView::StageStart { stage: stage@, step, total_steps, total_units }
            },
            ProgressRecord::StageProgress { stage, step, total_steps, done, total } => {
                RecordView::StageProgress { stage: stage@, step, total_steps, done, total }
            },
            ProgressRecord::StageDone { stage, step, total_steps } => {
                RecordView::StageDone { stage: stage@, step, total_steps }
            },
        }
    }
}

/// The record of an event, if there is one.
pub open spec fn record_of(
    s: StageView,
    total_steps: u32,
    event: ProgressEvent,
    percent: u32,
) -> Option<RecordView> {
    let now = after_event(s, event, percent);
    match event {
        ProgressEvent::StageStart { name, total } => Some(
            RecordView::StageStart {
                stage: now.name,
                step: now.step,
                total_steps,
                total_units: total,
            },
        ),
        ProgressEvent::StageProgress { done } => {
            if progress_due(s, percent) {
                Some(
                    RecordView::StageProgress {
                        stage: now.name,
                        step: now.step,
                        total_steps,
                        done,
                        total: s.total,
                    },
                )
            } else {
                None
            }
        },
        ProgressEvent::StageDone => Some(
            RecordView::StageDone { stage: now.name, step: now.step, total_steps },
        ),
    }
}

impl JsonProgress {
    pub closed spec fn stage(self) -> StageView {
        StageView {
            step: self.step,
            name: self.stage_name@,
            total: self.stage_total,
            last_percent: self.last_percent,
        }
    }

    pub closed spec fn total_steps(self) -> u32 {
        self.total_steps
    }

    pub fn new(total_steps: u32) -> (p: JsonProgress)
        ensures
            p.stage() == (StageView {
                step: 0,
                name: Seq::empty(),
                total: 0,
                last_percent: 0,
            }),
            p.total_steps() == total_steps,
    {
        let p = JsonProgress {
            step: 0,
            stage_name: String::new(),
            stage_total: 0,
            last_percent: 0,
            total_steps,
        };
        assert(p.stage_name@ =~= Seq::<char>::empty());
        p
    }

    /// The total of the stage that is going on.
    pub fn stage_total(&self) -> (n: u64)
        ensures
            n == self.stage().total,
    {
        self.stage_total
    }

    /// Takes note of an event and returns the record to write for it, if any.
    pub fn on_progress(&mut self, event: ProgressEvent, percent: u32) -> (r: Option<ProgressRecord>)
        ensures
            final(self).stage() == after_event(old(self).stage(), event, percent),
            final(self).total_steps() == old(self).total_steps(),
            match r {
                Some(x) => record_of(
                    old(self).stage(),
                    old(self).total_steps(),
                    event,
                    percent,
                ) == Some(x@),
                None => record_of(
                    old(self).stage(),
                    old(self).total_steps(),
                    event,
                    percent,
                ) is None,
            },
    {
        match event {
            ProgressEvent::StageStart { name, total } => {
                self.step = next_step(self.step);
                self.stage_name = name.to_owned();
                self.stage_total = total;
                self.last_percent = 0;
                Some(
                    ProgressRecord::StageStart {
                        stage: self.stage_name.clone(),
                        step: self.step,
                        total_steps: self.total_steps,
                        total_units: total,
                    },
                )
            },
            ProgressEvent::StageProgress { done } => {
                let b: u32 = bucket(percent);
                if self.stage_total == 0 || b <= self.last_percent {
                    return None;
                }
                self.last_percent = b;
                Some(
                    ProgressRecord::StageProgress {
                        stage: self.stage_name.clone(),
                        step: self.step,
                        total_steps: self.total_steps,
                        done,
                        total: self.stage_total,
                    },
                )
            },
            ProgressEvent::StageDone => {
                Some(
                    ProgressRecord::StageDone {
                        stage: self.stage_name.clone(),
                        step: self.step,
                        total_steps: self.total_steps,
                    },
                )
            },
        }
    }
}

/// The line that the tool writes for an event, if any.
pub open spec fn tool_line<F: Fn(u64, u64, u32) -> String>(
    f: F,
    s: StageView,
    event: ProgressEvent,
    percent: u32,
) -> Option<Seq<char>> {
    let now = after_event(s, event, percent);
    let head = "["@ + now.name + "] "@;
    match event {
        ProgressEvent::StageStart { name, total } => {
            if total > 0 {
                Some(head + "start ("@ + count_str(f, total, 2) + " units)"@)
            } else {
                Some(head + "start"@)
            }
        },
        ProgressEvent::StageProgress { done } => {
            if progress_due(s, percent) {
                Some(
                    head + decimal(now.last_percent as nat) + "% ("@ + count_str(f, done, 2) + "/"@
                        + count_str(f, s.total, 2) + ")"@,
                )
            } else {
                None
            }
        },
        ProgressEvent::StageDone => Some(head + "done"@),
    }
}

impl StderrProgress {
    /// What is remembered; steps are not counted.
    pub closed spec fn stage(self) -> StageView {
        StageView {
            step: 0,
            name: self.stage_name@,
            total: self.stage_total,
            last_percent: self.last_percent,
        }
    }

    pub fn new() -> (p: StderrProgress)
        ensures
            p.stage() == (StageView {
                step: 0,
                name: Seq::empty(),
                total: 0,
                last_percent: 0,
            }),
    {
        let p = StderrProgress { stage_name: String::new(), stage_total: 0, last_percent: 0 };
        assert(p.stage_name@ =~= Seq::<char>::empty());
        p
    }

    /// The total of the stage that is going on.
    pub fn stage_total(&self) -> (n: u64)
        ensures
            n == self.stage().total,
    {
        self.stage_total
    }

    /// Takes note of an event and returns the line to write for it, if any.
    pub fn on_progress<F: Fn(u64, u64, u32) -> String>(
        &mut self,
        event: ProgressEvent,
        percent: u32,
        render: &F,
    ) -> (line: Option<String>)
        requires
            is_ratio_renderer(*render),
        ensures
            final(self).stage() == (StageView {
                step: 0,
                ..after_event(old(self).stage(), event, percent)
            }),
            opt_line(line) == tool_line(*render, old(self).stage(), event, percent),
    {
        let ghost before = self.stage();
        let mut s = String::new();
        match event {
            ProgressEvent::StageStart { name, total } => {
                self.stage_name = name.to_owned();
                self.stage_total = total;
                self.last_percent = 0;
                push_text(&mut s, "[");
                push_text(&mut s, self.stage_name.as_str());
                push_text(&mut s, "] ");
                if total > 0 {
                    push_text(&mut s, "start (");
                    let t = human_count(total, 2, render);
                    push_text(&mut s, t.as_str());
                    push_text(&mut s, " units)");
                } else {
                    push_text(&mut s, "start");
                }
            },
            ProgressEvent::StageProgress { done } => {
                let b: u32 = bucket(percent);
                if self.stage_total == 0 || b <= self.last_percent {
                    return None;
                }
                self.last_percent = b;
                push_text(&mut s, "[");
                push_text(&mut s, self.stage_name.as_str());
                push_text(&mut s, "] ");
                push_decimal(&mut s, b as u64);
                push_text(&mut s, "% (");
                let d = human_count(done, 2, render);
                push_text(&mut s, d.as_str());
                push_text(&mut s, "/");
                let t = human_count(self.stage_total, 2, render);
                push_text(&mut s, t.as_str());
                push_text(&mut s, ")");
            },
            ProgressEvent::StageDone => {
                push_text(&mut s, "[");
                push_text(&mut s, self.stage_name.as_str());
                push_text(&mut s, "] ");
                push_text(&mut s, "done");
            },
        }
        proof {
            let want = tool_line(*render, before, event, percent);
            assert(s@ =~= want->0);
        }
        Some(s)
    }
}

/// What is reported of a stage never goes back: the percentage remembered does
/// not fall before the next stage starts.
pub proof fn law_progress_rises(s: StageView, event: ProgressEvent, percent: u32)
    requires
        !(event is StageStart),
    ensures
        after_event(s, event, percent).last_percent >= s.last_percent,
        after_event(s, event, percent).step == s.step,
        after_event(s, event, percent).name == s.name,
{
}

// A progress bar.
/// The stage that is going on, as a progress bar shows it.
#[derive(Debug)]
pub struct BarProgress {
    step: u32,
    prefix: String,
    stage_total: u64,
    open: bool,
    total_steps: u32,
}

/// What a progress bar has to do.
#[derive(Debug)]
pub enum BarAction {
    /// Nothing.
    Nothing,
    /// Show a bar of `total` units, or a spinner where that is zero.
    Start { total: u64, message: String },
    /// Move the bar.
    Update { done: u64, message: String },
    /// Remove the bar and write a line.
    Finish { line: String },
}

/// What an action is.
pub enum BarActionView {
    Nothing,
    Start { total: u64, message: Seq<char> },
    Update { done: u64, message: Seq<char> },
    Finish { line: Seq<char> },
}

impl View for BarAction {
    type V = BarActionView;

    open spec fn view(&self) -> BarActionView {
        match *self {
            BarAction::Nothing => BarActionView::Nothing,
            BarAction::Start { total, message } => {
                BarActionView::Start { total, message: message@ }
            },
            BarAction::Update { done, message } => {
                BarActionView::Update { done, message: message@ }
            },
            BarAction::Finish { line } => BarActionView::Finish { line: line@ },
        }
    }
}

/// What a progress bar remembers: the step, what its messages begin with, the
/// total of the stage, and whether a bar is shown.
pub struct BarView {
    pub step: u32,
    pub prefix: Seq<char>,
    pub total: u64,
    pub open: bool,
}

/// What a progress bar remembers after an event.
pub open spec fn bar_after(s: BarView, total_steps: u32, event: ProgressEvent) -> BarView {
    match event {
        ProgressEvent::StageStart { name, total } => {
            let step = if s.step == u32::MAX {
                0
            } else {
                (s.step + 1) as u32
            };
            BarView { step, prefix: step_str(step, total_steps) + name@, total, open: true }
        },
        ProgressEvent::StageProgress { done } => s,
        ProgressEvent::StageDone => BarView { open: false, ..s },
    }
}

/// What a progress bar has to do for an event.
pub open spec fn bar_action<F: Fn(u64, u64, u32) -> String>(
    f: F,
    s: BarView,
    total_steps: u32,
    event: ProgressEvent,
) -> BarActionView {
    let now = bar_after(s, total_steps, event);
    match event {
        ProgressEvent::StageStart { name, total } => {
            if total > 0 {
                BarActionView::Start { total, message: now.prefix + " 0/"@ + count_str(f, total, 1) }
            } else {
                BarActionView::Start { total, message: now.prefix }
            }
        },
        ProgressEvent::StageProgress { done } => {
            if s.open {
                BarActionView::Update {
                    done,
                    message: s.prefix + " "@ + count_str(f, done, 1) + "/"@ + count_str(
                        f,
                        s.total,
                        1,
                    ),
                }
            } else {
                BarActionView::Nothing
            }
        },
        ProgressEvent::StageDone => {
            if s.open {
                BarActionView::Finish { line: s.prefix + " done"@ }
            } else {
                BarActionView::Nothing
            }
        },
    }
}

impl BarProgress {
    pub closed spec fn shown(self) -> BarView {
        BarView {
            step: self.step,
            prefix: self.prefix@,
            total: self.stage_total,
            open: self.open,
        }
    }

    pub closed spec fn total_steps(self) -> u32 {
        self.total_steps
    }

    pub fn new(total_steps: u32) -> (p: BarProgress)
        ensures
            p.shown() == (BarView { step: 0, prefix: Seq::empty(), total: 0, open: false }),
            p.total_steps() == total_steps,
    {
        let p = BarProgress {
            step: 0,
            prefix: String::new(),
            stage_total: 0,
            open: false,
            total_steps,
        };
        assert(p.prefix@ =~= Seq::<char>::empty());
        p
    }

    /// Takes note of an event and returns what the bar has to do.
    pub fn on_progress<F: Fn(u64, u64, u32) -> String>(
        &mut self,
        event: ProgressEvent,
        render: &F,
    ) -> (action: BarAction)
        requires
            is_ratio_renderer(*render),
        ensures
            final(self).shown() == bar_after(old(self).shown(), old(self).total_steps(), event),
            final(self).total_steps() == old(self).total_steps(),
            action@ == bar_action(*render, old(self).shown(), old(self).total_steps(), event),
    {
        match event {
            ProgressEvent::StageStart { name, total } => {
                self.step = next_step(self.step);
                let mut prefix = String::new();
                push_step(&mut prefix, self.step, self.total_steps);
                push_text(&mut prefix, name);
                assert(prefix@ =~= step_str(self.step, self.total_steps) + name@);
                let mut message = prefix.clone();
                self.prefix = prefix;
                self.stage_total = total;
                self.open = true;
                if total > 0 {
                    push_text(&mut message, " 0/");
                    let t = human_count(total, 1, render);
                    push_text(&mut message, t.as_str());
                    assert(message@ =~= self.prefix@ + " 0/"@ + count_str(*render, total, 1));
                }
                BarAction::Start { total, message }
            },
            ProgressEvent::StageProgress { done } => {
                if !self.open {
                    return BarAction::Nothing;
                }
                let mut message = self.prefix.clone();
                push_text(&mut message, " ");
                let d = human_count(done, 1, render);
                push_text(&mut message, d.as_str());
                push_text(&mut message, "/");
                let t = human_count(self.stage_total, 1, render);
                push_text(&mut message, t.as_str());
                BarAction::Update { done, message }
            },
            ProgressEvent::StageDone => {
                if !self.open {
                    return BarAction::Nothing;
                }
                self.open = false;
                let mut line = self.prefix.clone();
                push_text(&mut line, " done");
                BarAction::Finish { line }
            },
        }
    }
}

} // verus!
