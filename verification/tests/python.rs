use foldquery::python::{ensure_step, EnsureFacts, EnsureProbe, EnsureStep};
use foldquery::python::{
    check_setup_step, command_failure, environment_failure, micromamba_fallback_notice, parse_python_version,
    provision_output_line, too_old_message, version_string, version_supported, EnvSource, MissingComponent,
    PythonVersion, SetupFacts, SetupProbe, SetupStep, MIN_PYTHON_MINOR,
};

fn v(major: u32, minor: u32) -> PythonVersion {
    PythonVersion { major, minor }
}

#[test]
fn python_versions_are_read() {
    assert_eq!(parse_python_version("Python 3.12.4"), Some(v(3, 12)));
    assert_eq!(parse_python_version("Python 3.11.0\n"), Some(v(3, 11)));
    assert_eq!(parse_python_version("  3.9.18"), Some(v(3, 9)));
    assert_eq!(parse_python_version("Python 3.13"), Some(v(3, 13)));
    assert_eq!(parse_python_version("Python +3.+10"), Some(v(3, 10)));
    assert_eq!(parse_python_version("Python"), None);
    assert_eq!(parse_python_version(""), None);
    assert_eq!(parse_python_version("Python 3"), None);
    assert_eq!(parse_python_version("Python 3.x"), None);
    assert_eq!(parse_python_version("Python .12"), None);
    assert_eq!(parse_python_version("Python 3.99999999999"), None);
    assert_eq!(parse_python_version("python 3.12"), None);
    assert_eq!(parse_python_version("Python -3.12"), None);
}

#[test]
fn supported_versions() {
    assert_eq!(MIN_PYTHON_MINOR, 11);
    assert!(version_supported(&v(3, 11)));
    assert!(version_supported(&v(3, 13)));
    assert!(!version_supported(&v(3, 10)));
    assert!(!version_supported(&v(2, 17)));
    assert!(!version_supported(&v(4, 0)));
    assert_eq!(version_string(&v(3, 12)), "3.12");
    assert_eq!(too_old_message(&v(3, 9)), "Python 3.9 is too old; version 3.11+ is required.");
}

fn facts() -> SetupFacts {
    SetupFacts { micromamba_runs: None, venv_runs: None, system_python: None, venv_module: None, pip_module: None }
}

fn probe(f: &SetupFacts) -> SetupProbe {
    match check_setup_step(f) {
        SetupStep::Probe(p) => p,
        SetupStep::Report(_) => panic!("expected a probe"),
    }
}

#[test]
fn setup_check_asks_in_order() {
    let mut f = facts();
    assert_eq!(probe(&f), SetupProbe::MicromambaRuns);
    f.micromamba_runs = Some(false);
    assert_eq!(probe(&f), SetupProbe::VenvRuns);
    f.venv_runs = Some(false);
    assert_eq!(probe(&f), SetupProbe::SystemPython);
    f.system_python = Some(Some(v(3, 12)));
    assert_eq!(probe(&f), SetupProbe::VenvModule);
    f.venv_module = Some(true);
    assert_eq!(probe(&f), SetupProbe::PipModule);
    f.pip_module = Some(true);
    match check_setup_step(&f) {
        SetupStep::Report(s) => {
            assert!(!s.ready);
            assert_eq!(s.missing, None);
            assert!(!s.venv_exists);
            assert_eq!(s.system_python.as_deref(), Some("3.12"));
            assert_eq!(s.env_source, EnvSource::System);
        }
        SetupStep::Probe(_) => panic!("expected a report"),
    }
}

#[test]
fn setup_check_reports() {
    let mut f = facts();
    f.micromamba_runs = Some(true);
    match check_setup_step(&f) {
        SetupStep::Report(s) => {
            assert!(s.ready && s.venv_exists && s.missing.is_none() && s.system_python.is_none());
            assert_eq!(s.env_source, EnvSource::Micromamba);
        }
        SetupStep::Probe(_) => panic!("expected a report"),
    }
    let mut f = facts();
    f.micromamba_runs = Some(false);
    f.venv_runs = Some(true);
    assert!(matches!(check_setup_step(&f), SetupStep::Report(s) if s.ready && s.env_source == EnvSource::Venv));
    f.venv_runs = Some(false);
    f.system_python = Some(None);
    assert!(matches!(
        check_setup_step(&f),
        SetupStep::Report(s) if !s.ready && s.missing == Some(MissingComponent::Python) && s.env_source == EnvSource::NotReady
    ));
    f.system_python = Some(Some(v(3, 8)));
    assert!(matches!(
        check_setup_step(&f),
        SetupStep::Report(s) if s.missing == Some(MissingComponent::PythonVersion) && s.system_python.as_deref() == Some("3.8")
    ));
    f.system_python = Some(Some(v(3, 11)));
    f.venv_module = Some(false);
    assert!(matches!(check_setup_step(&f), SetupStep::Report(s) if s.missing == Some(MissingComponent::Venv)));
    f.venv_module = Some(true);
    f.pip_module = Some(false);
    assert!(matches!(check_setup_step(&f), SetupStep::Report(s) if s.missing == Some(MissingComponent::Pip)));
}

#[test]
fn micromamba_output_lines() {
    let mut last = String::from("before");
    assert_eq!(provision_output_line(&mut last, "   \n"), None);
    assert_eq!(last, "before");
    assert_eq!(provision_output_line(&mut last, "  Downloading numpy  \n"), Some("Downloading numpy".to_string()));
    assert_eq!(last, "Downloading numpy");
    assert_eq!(provision_output_line(&mut last, "resolving"), None);
    assert_eq!(last, "resolving");
    assert_eq!(provision_output_line(&mut last, "Transaction finished"), Some("Transaction finished".to_string()));
}

#[test]
fn provisioning_messages() {
    assert_eq!(environment_failure(""), "Environment creation failed");
    assert_eq!(environment_failure("conflict"), "Environment creation failed: conflict");
    assert_eq!(
        micromamba_fallback_notice("not bundled"),
        "Micromamba provisioning unavailable (not bundled); trying system Python\u{2026}"
    );
    assert_eq!(command_failure(""), "Command failed with no output");
    assert_eq!(command_failure(" \n\t"), "Command failed with no output");
    assert_eq!(command_failure("ERROR: no"), "ERROR: no");
    let long = format!("{}{}", "a".repeat(100), "z".repeat(2000));
    assert_eq!(command_failure(&long), "z".repeat(2000));
}

#[test]
fn printed_versions_read_back() {
    for (major, minor) in [(3, 12), (3, 9), (0, 0), (10, 4_000_000_000)] {
        let version = v(major, minor);
        let text = version_string(&version);
        assert_eq!(parse_python_version(&format!("Python {text}")), Some(version));
        assert_eq!(parse_python_version(&format!("Python {text}.7")), Some(version));
    }
}

fn ensure_probe(f: &EnsureFacts) -> EnsureProbe {
    match ensure_step(f) {
        EnsureStep::Probe(p) => p,
        _ => panic!("expected a probe"),
    }
}

#[test]
fn provisioning_goes_in_order() {
    let mut f = EnsureFacts {
        micromamba_runs: None,
        venv_runs: None,
        bundled_micromamba: None,
        provisioned: None,
        system_python: None,
        venv_module: None,
        pip_module: None,
    };
    assert_eq!(ensure_probe(&f), EnsureProbe::MicromambaRuns);
    f.micromamba_runs = Some(true);
    assert!(matches!(ensure_step(&f), EnsureStep::UseMicromamba));
    f.micromamba_runs = Some(false);
    assert_eq!(ensure_probe(&f), EnsureProbe::VenvRuns);
    f.venv_runs = Some(true);
    assert!(matches!(ensure_step(&f), EnsureStep::UseVenv));
    f.venv_runs = Some(false);
    assert_eq!(ensure_probe(&f), EnsureProbe::BundledMicromamba);
    f.bundled_micromamba = Some(true);
    assert_eq!(ensure_probe(&f), EnsureProbe::Provision);
    f.provisioned = Some(true);
    assert!(matches!(ensure_step(&f), EnsureStep::UseProvisioned));
    f.provisioned = Some(false);
    assert_eq!(ensure_probe(&f), EnsureProbe::SystemPython);
    f.system_python = Some(None);
    assert!(matches!(ensure_step(&f), EnsureStep::Fail(e) if e == "Python 3 was not found on this system."));
    f.system_python = Some(Some(v(3, 10)));
    assert!(matches!(ensure_step(&f), EnsureStep::Fail(e) if e == "Python 3.10 is too old; version 3.11+ is required."));
    f.system_python = Some(Some(v(3, 12)));
    assert_eq!(ensure_probe(&f), EnsureProbe::VenvModule);
    f.venv_module = Some(false);
    assert!(matches!(ensure_step(&f), EnsureStep::Fail(e) if e == "The Python `venv` module is not available."));
    f.venv_module = Some(true);
    assert_eq!(ensure_probe(&f), EnsureProbe::PipModule);
    f.pip_module = Some(false);
    assert!(matches!(ensure_step(&f), EnsureStep::Fail(e) if e == "The Python `pip` module is not available."));
    f.pip_module = Some(true);
    assert!(matches!(ensure_step(&f), EnsureStep::CreateVenv));
    // Without a bundled micromamba the system Python is next.
    f.bundled_micromamba = Some(false);
    f.provisioned = None;
    assert!(matches!(ensure_step(&f), EnsureStep::CreateVenv));
}
