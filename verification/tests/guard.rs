//! The guard of a cache directory.
use cachic::config::guard::{check, GuardAction, GuardError, StoredConfig, STORE_FORMAT_VERSION};

/// A cache directory: what its guard file holds.
struct Dir(Option<String>);

impl Dir {
    fn check(&mut self, configured: &StoredConfig, force: bool) -> Result<(), GuardError> {
        match check(self.0.as_deref(), "/cache/CONFIGHASH", configured, force)? {
            GuardAction::Keep => {}
            GuardAction::Write(text) => self.0 = Some(text),
        }
        Ok(())
    }
}

fn config(slice_size: u64) -> StoredConfig {
    StoredConfig {
        slice_size,
        store_format_version: STORE_FORMAT_VERSION,
    }
}

#[test]
fn writes_the_guard_for_a_new_directory() {
    let mut dir = Dir(None);
    dir.check(&config(1 << 20), false).unwrap();
    let text = dir.0.unwrap();
    assert!(text.contains("slice_size=1048576"));
    assert!(text.contains(&format!("store_format_version={STORE_FORMAT_VERSION}")));
}

#[test]
fn accepts_an_unchanged_configuration() {
    let mut dir = Dir(None);
    dir.check(&config(1 << 20), false).unwrap();
    dir.check(&config(1 << 20), false).unwrap();
}

#[test]
fn refuses_a_changed_slice_size() {
    let mut dir = Dir(None);
    dir.check(&config(1 << 20), false).unwrap();
    let err = dir.check(&config(4 << 20), false).unwrap_err();
    assert!(matches!(err, GuardError::Mismatch { .. }));
    // The message has to tell an operator what to actually do.
    let text = err.message();
    assert!(text.contains("1 MiB"), "{text}");
    assert!(text.contains("4 MiB"), "{text}");
    assert!(text.contains("FORCE_CONFIG"), "{text}");
}

#[test]
fn force_adopts_the_new_configuration() {
    let mut dir = Dir(None);
    dir.check(&config(1 << 20), false).unwrap();
    dir.check(&config(4 << 20), true).unwrap();
    // And the new value sticks, so the next start without force is happy.
    dir.check(&config(4 << 20), false).unwrap();
    // ... while the old one is now the mismatch.
    assert!(dir.check(&config(1 << 20), false).is_err());
}

#[test]
fn refuses_a_changed_store_format() {
    let mut dir = Dir(None);
    dir.check(&config(1 << 20), false).unwrap();
    let newer = StoredConfig {
        slice_size: 1 << 20,
        store_format_version: STORE_FORMAT_VERSION + 1,
    };
    assert!(matches!(
        dir.check(&newer, false).unwrap_err(),
        GuardError::Mismatch { .. }
    ));
}

#[test]
fn reports_malformed_guard_files_with_a_line_number() {
    let mut dir = Dir(Some(
        "store_format_version=1\nslice_size=not-a-number\n".into(),
    ));
    let err = dir.check(&config(1 << 20), false).unwrap_err();
    match err {
        GuardError::Malformed { line, .. } => assert_eq!(line, 2),
        other => panic!("expected Malformed, got {other:?}"),
    }
}

#[test]
fn ignores_comments_and_blank_lines() {
    let mut dir = Dir(Some(
        "# a comment\n\n  store_format_version = 1 \nslice_size = 1048576\n\n".into(),
    ));
    dir.check(&config(1 << 20), false).unwrap();
}

#[test]
fn a_written_guard_reads_back() {
    let stored = StoredConfig {
        slice_size: 4 << 20,
        store_format_version: 7,
    };
    let text = stored.render();
    assert_eq!(StoredConfig::parse(&text, "p"), Ok(stored));
}
