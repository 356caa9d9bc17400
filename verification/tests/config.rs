use ft_core::config::{in_tmux, Config, Editor, EditorStrategy, PullStrategy, Timeblocks};

#[test]
fn editor_defaults_when_block_absent() {
    let c = Config::default();
    assert_eq!(c.editor.strategy, EditorStrategy::TmuxPopup);
    assert_eq!(c.editor.popup_width, "90%");
    assert_eq!(c.editor.popup_height, "90%");
    let e = Editor::default();
    assert_eq!(e.strategy, EditorStrategy::TmuxPopup);
}

#[test]
fn editor_strategy_resolve_passes_through_when_in_tmux() {
    let inside = in_tmux(Some("/tmp/tmux-1000/default,1234,0"));
    assert!(inside);
    assert_eq!(EditorStrategy::TmuxPopup.resolve(inside), EditorStrategy::TmuxPopup);
    assert_eq!(EditorStrategy::TmuxWindow.resolve(inside), EditorStrategy::TmuxWindow);
    assert_eq!(EditorStrategy::TmuxSplit.resolve(inside), EditorStrategy::TmuxSplit);
    assert_eq!(EditorStrategy::Suspend.resolve(inside), EditorStrategy::Suspend);
}

#[test]
fn editor_strategy_resolve_falls_back_to_suspend_outside_tmux() {
    let inside = in_tmux(None);
    assert!(!inside);
    assert_eq!(EditorStrategy::TmuxPopup.resolve(inside), EditorStrategy::Suspend);
    assert_eq!(EditorStrategy::TmuxWindow.resolve(inside), EditorStrategy::Suspend);
    assert_eq!(EditorStrategy::TmuxSplit.resolve(inside), EditorStrategy::Suspend);
    assert_eq!(EditorStrategy::Suspend.resolve(inside), EditorStrategy::Suspend);
}

#[test]
fn editor_strategy_resolve_treats_empty_tmux_as_unset() {
    let inside = in_tmux(Some(""));
    assert!(!inside);
    assert_eq!(EditorStrategy::TmuxPopup.resolve(inside), EditorStrategy::Suspend);
}

#[test]
fn git_defaults_when_block_absent() {
    assert_eq!(Config::default().git.pull_strategy, PullStrategy::Merge);
}

#[test]
fn timeblocks_default_heading_is_time_blocks() {
    let c = Config::default();
    assert!(c.timeblocks.heading.is_none());
    assert_eq!(c.timeblocks_heading(), "Time Blocks");
}

#[test]
fn timeblocks_heading_override_applies() {
    let mut c = Config::default();
    c.timeblocks = Timeblocks {
        heading: Some("Day Planner".to_string()),
    };
    assert_eq!(c.timeblocks_heading(), "Day Planner");
}

#[test]
fn defaults_when_no_files() {
    let c = Config::default();
    assert!(c.default_vault.is_none());
    assert!(c.default_task_location.is_none());
    assert!(c.periodic_notes.daily.is_none());
    assert!(c.periodic_notes.weekly.is_none());
    assert!(c.ignored_paths.is_empty());
    assert!(c.presets.is_empty());
    assert!(c.notes.templates_dir.is_none());
}
