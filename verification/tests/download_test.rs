use go_plugin::platform::{
    exe_bin_path, fallback_last_globals_dir, globals_lookup_dirs, resolve_download,
    sync_profile_plan, HostArch, HostOs, PlatformError,
};

#[test]
fn supports_linux_arm64() {
    let d = resolve_download(HostOs::Linux, HostArch::Arm64, "1.2.0").unwrap();
    assert_eq!(d.archive_prefix, "go");
    assert_eq!(
        d.checksum_url,
        "https://dl.google.com/go/go1.2.linux-arm64.tar.gz.sha256"
    );
    assert_eq!(d.download_name, "go1.2.linux-arm64.tar.gz");
    assert_eq!(d.download_url, "https://dl.google.com/go/go1.2.linux-arm64.tar.gz");
}

#[test]
fn supports_linux_x64() {
    let d = resolve_download(HostOs::Linux, HostArch::X64, "1.2.0").unwrap();
    assert_eq!(d.archive_prefix, "go");
    assert_eq!(
        d.checksum_url,
        "https://dl.google.com/go/go1.2.linux-amd64.tar.gz.sha256"
    );
    assert_eq!(d.download_name, "go1.2.linux-amd64.tar.gz");
    assert_eq!(d.download_url, "https://dl.google.com/go/go1.2.linux-amd64.tar.gz");
}

#[test]
fn supports_macos_arm64() {
    let d = resolve_download(HostOs::MacOs, HostArch::Arm64, "1.2.0").unwrap();
    assert_eq!(d.archive_prefix, "go");
    assert_eq!(
        d.checksum_url,
        "https://dl.google.com/go/go1.2.darwin-arm64.tar.gz.sha256"
    );
    assert_eq!(d.download_name, "go1.2.darwin-arm64.tar.gz");
    assert_eq!(d.download_url, "https://dl.google.com/go/go1.2.darwin-arm64.tar.gz");
}

#[test]
fn supports_macos_x64() {
    let d = resolve_download(HostOs::MacOs, HostArch::X64, "1.2.0").unwrap();
    assert_eq!(d.archive_prefix, "go");
    assert_eq!(
        d.checksum_url,
        "https://dl.google.com/go/go1.2.darwin-amd64.tar.gz.sha256"
    );
    assert_eq!(d.download_name, "go1.2.darwin-amd64.tar.gz");
    assert_eq!(d.download_url, "https://dl.google.com/go/go1.2.darwin-amd64.tar.gz");
}

#[test]
fn supports_windows_x64() {
    let d = resolve_download(HostOs::Windows, HostArch::X64, "1.2.0").unwrap();
    assert_eq!(d.archive_prefix, "go");
    assert_eq!(
        d.checksum_url,
        "https://dl.google.com/go/go1.2.windows-amd64.zip.sha256"
    );
    assert_eq!(d.download_name, "go1.2.windows-amd64.zip");
    assert_eq!(d.download_url, "https://dl.google.com/go/go1.2.windows-amd64.zip");
}

#[test]
fn supports_freebsd_x64() {
    let d = resolve_download(HostOs::FreeBsd, HostArch::X64, "1.2.0").unwrap();
    assert_eq!(d.archive_prefix, "go");
    assert_eq!(
        d.checksum_url,
        "https://dl.google.com/go/go1.2.freebsd-amd64.tar.gz.sha256"
    );
    assert_eq!(d.download_name, "go1.2.freebsd-amd64.tar.gz");
    assert_eq!(d.download_url, "https://dl.google.com/go/go1.2.freebsd-amd64.tar.gz");
}

#[test]
fn locates_unix_bin() {
    assert_eq!(exe_bin_path(HostOs::Linux), "bin/go");
    assert_eq!(exe_bin_path(HostOs::MacOs), "bin/go");
}

#[test]
fn locates_windows_bin() {
    assert_eq!(exe_bin_path(HostOs::Windows), "bin/go.exe");
}

#[test]
fn rejects_unsupported_arch() {
    let r = resolve_download(HostOs::Linux, HostArch::Mips64, "1.2.0");
    assert_eq!(
        r.err().unwrap(),
        PlatformError::UnsupportedTarget(HostOs::Linux, HostArch::Mips64)
    );
    let r = resolve_download(HostOs::MacOs, HostArch::X86, "1.2.0");
    assert_eq!(
        r.err().unwrap(),
        PlatformError::UnsupportedTarget(HostOs::MacOs, HostArch::X86)
    );
}

#[test]
fn rejects_unsupported_os() {
    let r = resolve_download(HostOs::Solaris, HostArch::X64, "1.2.0");
    assert_eq!(r.err().unwrap(), PlatformError::UnsupportedOs(HostOs::Solaris));
}

#[test]
fn plans_shell_profile_sync() {
    let plan = sync_profile_plan(&Vec::new());
    assert_eq!(plan.check_var, "GOBIN");
    assert_eq!(
        plan.export_vars,
        vec![("GOBIN".to_string(), "$HOME/go/bin".to_string())]
    );
    assert_eq!(plan.extend_path, vec!["$GOBIN"]);
    assert!(!plan.skip_sync);
}

#[test]
fn skips_sync_when_asked() {
    let plan = sync_profile_plan(&vec!["--offline".to_string(), "--no-gobin".to_string()]);
    assert!(plan.skip_sync);
}

#[test]
fn lists_globals_dirs() {
    let dirs = globals_lookup_dirs();
    assert_eq!(dirs, vec!["$GOBIN", "$GOROOT/bin", "$GOPATH/bin", "$HOME/go/bin"]);
    assert!(fallback_last_globals_dir());
}
