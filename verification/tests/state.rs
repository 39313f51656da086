use boot_workspace::commands::{init_root, InitResult};
use boot_workspace::logging::{init_tracing, LogSink};
use boot_workspace::recents::{RecentStatus, RecentWorkspace, Timestamp};
use boot_workspace::state::{next_step, AppError, AppSettings, InitStep, Opened, SharedState};

fn settings(root: &str, locale: &str) -> AppSettings {
    AppSettings { root_path: root.to_string(), locale: locale.to_string() }
}

fn opened(root: &str, locale: &str) -> Opened<String, u32> {
    Opened { paths: format!("{root}/paths"), db: 7, settings: settings(root, locale) }
}

#[test]
fn nothing_is_open_at_first() {
    let state: SharedState<String, u32> = SharedState::new();
    assert_eq!(state.paths(), Err(AppError::RootNotInitialized));
    assert_eq!(state.db(), Err(AppError::RootNotInitialized));
    assert_eq!(state.db_opt(), None);
    let state: SharedState<String, u32> = SharedState::default();
    assert_eq!(state.paths(), Err(AppError::RootNotInitialized));
}

#[test]
fn no_settings_without_a_workspace_is_no_error() {
    let state: SharedState<String, u32> = SharedState::new();
    let mut called = false;
    let got: Result<Option<AppSettings>, String> = state.get_settings(|_db| {
        called = true;
        Err("must not be read".to_string())
    });
    assert_eq!(got, Ok(None));
    assert!(!called);
}

#[test]
fn a_successful_initialization_opens_the_workspace() {
    let mut state: SharedState<String, u32> = SharedState::new();
    let got: Result<AppSettings, String> = state.initialize(Ok(opened("r", "en")));
    assert_eq!(got, Ok(settings("r", "en")));
    assert_eq!(state.paths(), Ok(&"r/paths".to_string()));
    assert_eq!(state.db(), Ok(&7));
    assert_eq!(state.db_opt(), Some(&7));
    let read: Result<Option<AppSettings>, String> =
        state.get_settings(|db| Ok(settings("r", &format!("from {db}"))));
    assert_eq!(read, Ok(Some(settings("r", "from 7"))));
    let failed: Result<Option<AppSettings>, String> =
        state.get_settings(|_db| Err("locked".to_string()));
    assert_eq!(failed, Err("locked".to_string()));
}

#[test]
fn a_failed_initialization_leaves_the_state() {
    let mut state: SharedState<String, u32> = SharedState::new();
    let got = state.initialize(Err("no layout".to_string()));
    assert_eq!(got, Err("no layout".to_string()));
    assert_eq!(state.paths(), Err(AppError::RootNotInitialized));

    let _: Result<AppSettings, String> = state.initialize(Ok(opened("first", "en")));
    let got = state.initialize(Err("no store".to_string()));
    assert_eq!(got, Err("no store".to_string()));
    assert_eq!(state.paths(), Ok(&"first/paths".to_string()));
    assert_eq!(state.db(), Ok(&7));
}

#[test]
fn a_later_initialization_replaces_the_workspace() {
    let mut state: SharedState<String, u32> = SharedState::new();
    let _: Result<AppSettings, String> = state.initialize(Ok(opened("first", "en")));
    let second = Opened { paths: "second/paths".to_string(), db: 8, settings: settings("second", "de") };
    let got: Result<AppSettings, String> = state.initialize(Ok(second));
    assert_eq!(got, Ok(settings("second", "de")));
    assert_eq!(state.paths(), Ok(&"second/paths".to_string()));
    assert_eq!(state.db(), Ok(&8));
}

#[test]
fn steps_in_order_with_a_locale() {
    let mut steps = Vec::new();
    let mut done = None;
    while let Some(step) = next_step(done, true) {
        steps.push(step);
        done = Some(step);
    }
    assert_eq!(
        steps,
        vec![
            InitStep::EnsureLayout,
            InitStep::BindLog,
            InitStep::OpenStore,
            InitStep::SaveRootPath,
            InitStep::SaveLocale,
            InitStep::ReadSettings,
            InitStep::Install,
        ]
    );
}

#[test]
fn steps_in_order_without_a_locale() {
    let mut steps = Vec::new();
    let mut done = None;
    while let Some(step) = next_step(done, false) {
        steps.push(step);
        done = Some(step);
    }
    assert_eq!(
        steps,
        vec![
            InitStep::EnsureLayout,
            InitStep::BindLog,
            InitStep::OpenStore,
            InitStep::SaveRootPath,
            InitStep::ReadSettings,
            InitStep::Install,
        ]
    );
}

#[test]
fn the_log_sink_is_bound_once() {
    let mut sink = LogSink::new();
    assert_eq!(sink.target(), None);
    assert!(init_tracing(&mut sink, "C:\\one\\logs\\ops.log"));
    assert_eq!(sink.target(), Some("C:\\one\\logs\\ops.log"));
    assert!(!init_tracing(&mut sink, "C:\\two\\logs\\ops.log"));
    assert_eq!(sink.target(), Some("C:\\one\\logs\\ops.log"));
}

#[test]
fn opening_a_workspace_is_recorded() {
    let mut state: SharedState<String, u32> = SharedState::new();
    let mut recents: Vec<RecentWorkspace> = Vec::new();
    let got: Result<InitResult, String> =
        init_root(&mut state, &mut recents, "C:\\Root", Ok(opened("C:\\Root", "ja")));
    assert_eq!(got, Ok(InitResult { settings: settings("C:\\Root", "ja") }));
    assert_eq!(state.db(), Ok(&7));
    assert_eq!(recents.len(), 1);
    assert_eq!(recents[0].path, "C:\\Root");
    assert_eq!(recents[0].last_status, RecentStatus::Okay);
    assert_eq!(recents[0].locale, Some("ja".to_string()));
    assert_eq!(recents[0].node_count, None);
    assert!(recents[0].last_opened_at.secs > 1_600_000_000);
}

#[test]
fn a_failed_opening_is_recorded_and_keeps_the_locale_on_record() {
    let mut state: SharedState<String, u32> = SharedState::new();
    let mut recents = vec![RecentWorkspace {
        path: "c:/root".to_string(),
        last_opened_at: Timestamp { secs: 5, nanos: 0 },
        pinned: true,
        last_status: RecentStatus::Okay,
        node_count: Some(3),
        locale: Some("en".to_string()),
    }];
    let got: Result<InitResult, String> =
        init_root(&mut state, &mut recents, "C:\\Root", Err("broken".to_string()));
    assert_eq!(got, Err("broken".to_string()));
    assert_eq!(state.db(), Err(AppError::RootNotInitialized));
    assert_eq!(recents.len(), 1);
    assert_eq!(recents[0].path, "C:\\Root");
    assert_eq!(recents[0].last_status, RecentStatus::InitFailed);
    assert_eq!(recents[0].locale, Some("en".to_string()));
    assert_eq!(recents[0].node_count, Some(3));
    assert!(recents[0].pinned);
}
