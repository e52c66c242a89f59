//! Resolution of a Go release artifact for one (operating system,
//! architecture, version) request: support matrix, architecture tokens,
//! archive names and URLs, and the installed executable's path.

use vstd::prelude::*;

use crate::strkit::str_eq;
use crate::version::{to_native, to_go_version};

use vstd::string::StringExecFns;

verus! {

/// Operating systems a host may report.
#[derive(Clone, Copy, PartialEq, Eq, Structural, Debug)]
pub enum HostOs {
    Android,
    Dragonfly,
    FreeBsd,
    Ios,
    Linux,
    MacOs,
    NetBsd,
    OpenBsd,
    Solaris,
    Windows,
}

/// CPU architectures a host may report.
#[derive(Clone, Copy, PartialEq, Eq, Structural, Debug)]
pub enum HostArch {
    X86,
    X64,
    Arm,
    Arm64,
    LongArm64,
    M68k,
    Mips,
    Mips64,
    Powerpc,
    Powerpc64,
    Riscv64,
    S390x,
    Sparc64,
}

/// The request failed because the platform is outside the support
/// matrix: either the operating system has no Go releases at all, or
/// the architecture is not built for that operating system.
#[derive(Clone, Copy, PartialEq, Eq, Structural, Debug)]
pub enum PlatformError {
    UnsupportedOs(HostOs),
    UnsupportedTarget(HostOs, HostArch),
}

/// The names and URLs resolved for one version and platform.
pub struct ArtifactDescriptor {
    /// Leading directory inside the release archive.
    pub archive_prefix: String,
    /// File name of the release archive.
    pub download_name: String,
    /// Full URL of the release archive.
    pub download_url: String,
    /// Full URL of the archive's checksum companion file.
    pub checksum_url: String,
}

/// Operating systems that have Go release archives.
pub open spec fn os_in_matrix(os: HostOs) -> bool {
    match os {
        HostOs::Linux => true,
        HostOs::MacOs => true,
        HostOs::Windows => true,
        HostOs::FreeBsd => true,
        _ => false,
    }
}

/// The support matrix: which architectures are released for which
/// operating system.
pub open spec fn pair_in_matrix(os: HostOs, arch: HostArch) -> bool {
    match os {
        HostOs::Linux => matches!(
            arch,
            HostArch::X64 | HostArch::Arm64 | HostArch::X86 | HostArch::Arm | HostArch::S390x
        ),
        HostOs::MacOs => matches!(arch, HostArch::X64 | HostArch::Arm64),
        HostOs::Windows => matches!(arch, HostArch::X64 | HostArch::Arm64 | HostArch::X86),
        HostOs::FreeBsd => matches!(arch, HostArch::X64 | HostArch::X86),
        _ => false,
    }
}

/// Go's own token for an architecture; meaningful only for the
/// architectures inside the support matrix.
pub open spec fn arch_token(arch: HostArch) -> Seq<char> {
    match arch {
        HostArch::Arm => seq!['a', 'r', 'm', 'v', '6', 'l'],
        HostArch::Arm64 => seq!['a', 'r', 'm', '6', '4'],
        HostArch::X64 => seq!['a', 'm', 'd', '6', '4'],
        HostArch::X86 => seq!['3', '8', '6'],
        HostArch::S390x => seq!['s', '3', '9', '0', 'x'],
        _ => Seq::empty(),
    }
}

/// Go's platform tag for an operating system; meaningful only inside
/// the support matrix.
pub open spec fn os_tag(os: HostOs) -> Seq<char> {
    match os {
        HostOs::Linux => seq!['l', 'i', 'n', 'u', 'x'],
        HostOs::MacOs => seq!['d', 'a', 'r', 'w', 'i', 'n'],
        HostOs::Windows => seq!['w', 'i', 'n', 'd', 'o', 'w', 's'],
        HostOs::FreeBsd => seq!['f', 'r', 'e', 'e', 'b', 's', 'd'],
        _ => Seq::empty(),
    }
}

/// The archive extension used for an operating system.
pub open spec fn archive_ext(os: HostOs) -> Seq<char> {
    if os == HostOs::Windows {
        seq!['.', 'z', 'i', 'p']
    } else {
        seq!['.', 't', 'a', 'r', '.', 'g', 'z']
    }
}

/// The archive file name for one version and platform: the native
/// version spelling framed by the platform tags.
pub open spec fn download_name_spec(os: HostOs, arch: HostArch, version: Seq<char>) -> Seq<
    char,
> {
    seq!['g', 'o'] + to_native(version) + seq!['.'] + os_tag(os) + seq!['-'] + arch_token(arch)
        + archive_ext(os)
}

/// The fixed upstream base all release archives are served from.
pub open spec fn base_url_chars() -> Seq<char> {
    seq![
        'h', 't', 't', 'p', 's', ':', '/', '/', 'd', 'l', '.', 'g', 'o', 'o', 'g', 'l', 'e', '.',
        'c', 'o', 'm', '/', 'g', 'o', '/',
    ]
}

/// The suffix appended to a download URL to reach its checksum file.
pub open spec fn checksum_suffix_chars() -> Seq<char> {
    seq!['.', 's', 'h', 'a', '2', '5', '6']
}

/// Whether this operating system has Go releases.
pub fn os_supported(os: HostOs) -> (b: bool)
    ensures
        b == os_in_matrix(os),
{
    matches!(os, HostOs::Linux | HostOs::MacOs | HostOs::Windows | HostOs::FreeBsd)
}

/// Whether this (operating system, architecture) pair is inside the
/// support matrix.
pub fn pair_supported(os: HostOs, arch: HostArch) -> (b: bool)
    ensures
        b == pair_in_matrix(os, arch),
{
    match os {
        HostOs::Linux => matches!(
            arch,
            HostArch::X64 | HostArch::Arm64 | HostArch::X86 | HostArch::Arm | HostArch::S390x
        ),
        HostOs::MacOs => matches!(arch, HostArch::X64 | HostArch::Arm64),
        HostOs::Windows => matches!(arch, HostArch::X64 | HostArch::Arm64 | HostArch::X86),
        HostOs::FreeBsd => matches!(arch, HostArch::X64 | HostArch::X86),
        _ => false,
    }
}

/// Resolves the archive name and URLs for a semantic version on one
/// platform, or reports why the platform is unsupported.
pub fn resolve_download(os: HostOs, arch: HostArch, version: &str) -> (r: Result<
    ArtifactDescriptor,
    PlatformError,
>)
    ensures
        match r {
            Ok(d) => {
                &&& pair_in_matrix(os, arch)
                &&& d.download_name@ == download_name_spec(os, arch, version@)
                &&& d.download_url@ == base_url_chars() + download_name_spec(os, arch, version@)
                &&& d.checksum_url@ == base_url_chars() + download_name_spec(os, arch, version@)
                    + checksum_suffix_chars()
                &&& d.archive_prefix@ == seq!['g', 'o']
            },
            Err(PlatformError::UnsupportedOs(o)) => o == os && !os_in_matrix(os),
            Err(PlatformError::UnsupportedTarget(o, a)) => {
                &&& o == os
                &&& a == arch
                &&& os_in_matrix(os)
                &&& !pair_in_matrix(os, arch)
            },
        },
{
    if !os_supported(os) {
        return Err(PlatformError::UnsupportedOs(os));
    }
    if !pair_supported(os, arch) {
        return Err(PlatformError::UnsupportedTarget(os, arch));
    }
    let native = to_go_version(version);
    let arch_tok: &str = match arch {
        HostArch::Arm => "armv6l",
        HostArch::Arm64 => "arm64",
        HostArch::X64 => "amd64",
        HostArch::X86 => "386",
        HostArch::S390x => "s390x",
        _ => "",
    };
    let os_tok: &str = match os {
        HostOs::Linux => "linux",
        HostOs::MacOs => "darwin",
        HostOs::Windows => "windows",
        HostOs::FreeBsd => "freebsd",
        _ => "",
    };
    let ext: &str = if matches!(os, HostOs::Windows) {
        ".zip"
    } else {
        ".tar.gz"
    };
    proof {
        reveal_strlit("armv6l");
        reveal_strlit("arm64");
        reveal_strlit("amd64");
        reveal_strlit("386");
        reveal_strlit("s390x");
        reveal_strlit("");
        assert(arch_tok@ =~= arch_token(arch));
        reveal_strlit("linux");
        reveal_strlit("darwin");
        reveal_strlit("windows");
        reveal_strlit("freebsd");
        assert(os_tok@ =~= os_tag(os));
        reveal_strlit(".zip");
        reveal_strlit(".tar.gz");
        assert(ext@ =~= archive_ext(os));
    }
    let mut name = String::new();
    name.append("go");
    name.append(native.as_str());
    name.append(".");
    name.append(os_tok);
    name.append("-");
    name.append(arch_tok);
    name.append(ext);
    let mut url = String::new();
    url.append("https://dl.google.com/go/");
    url.append(name.as_str());
    let mut sum = String::new();
    sum.append(url.as_str());
    sum.append(".sha256");
    let mut prefix = String::new();
    prefix.append("go");
    proof {
        reveal_strlit("go");
        reveal_strlit(".");
        reveal_strlit("-");
        reveal_strlit("https://dl.google.com/go/");
        reveal_strlit(".sha256");
        assert(name@ =~= download_name_spec(os, arch, version@));
        assert(url@ =~= base_url_chars() + download_name_spec(os, arch, version@));
        assert(sum@ =~= base_url_chars() + download_name_spec(os, arch, version@)
            + checksum_suffix_chars());
        assert(prefix@ =~= seq!['g', 'o']);
    }
    Ok(
        ArtifactDescriptor {
            archive_prefix: prefix,
            download_name: name,
            download_url: url,
            checksum_url: sum,
        },
    )
}

/// The executable's relative path inside an installed release tree.
pub open spec fn bin_path_spec(os: HostOs) -> Seq<char> {
    if os == HostOs::Windows {
        seq!['b', 'i', 'n', '/', 'g', 'o', '.', 'e', 'x', 'e']
    } else {
        seq!['b', 'i', 'n', '/', 'g', 'o']
    }
}

/// The relative path of the `go` executable inside an installed tree,
/// with the Windows suffix where that applies.
pub fn exe_bin_path(os: HostOs) -> (r: String)
    ensures
        r@ == bin_path_spec(os),
{
    let r = if matches!(os, HostOs::Windows) {
        String::from_str("bin/go.exe")
    } else {
        String::from_str("bin/go")
    };
    proof {
        reveal_strlit("bin/go.exe");
        reveal_strlit("bin/go");
        assert(r@ =~= bin_path_spec(os));
    }
    r
}

/// The environment-variable directories searched for a pre-existing
/// global install, in search order.
pub open spec fn globals_dir_spec(i: int) -> Seq<char> {
    if i == 0 {
        seq!['$', 'G', 'O', 'B', 'I', 'N']
    } else if i == 1 {
        seq!['$', 'G', 'O', 'R', 'O', 'O', 'T', '/', 'b', 'i', 'n']
    } else if i == 2 {
        seq!['$', 'G', 'O', 'P', 'A', 'T', 'H', '/', 'b', 'i', 'n']
    } else {
        seq!['$', 'H', 'O', 'M', 'E', '/', 'g', 'o', '/', 'b', 'i', 'n']
    }
}

/// The ordered directory list searched for a global install.
pub fn globals_lookup_dirs() -> (r: Vec<String>)
    ensures
        r@.len() == 4,
        forall|i: int| 0 <= i < 4 ==> #[trigger] r@[i]@ == globals_dir_spec(i),
{
    let mut r: Vec<String> = Vec::new();
    r.push(String::from_str("$GOBIN"));
    r.push(String::from_str("$GOROOT/bin"));
    r.push(String::from_str("$GOPATH/bin"));
    r.push(String::from_str("$HOME/go/bin"));
    proof {
        reveal_strlit("$GOBIN");
        reveal_strlit("$GOROOT/bin");
        reveal_strlit("$GOPATH/bin");
        reveal_strlit("$HOME/go/bin");
        assert(r@[0]@ =~= globals_dir_spec(0));
        assert(r@[1]@ =~= globals_dir_spec(1));
        assert(r@[2]@ =~= globals_dir_spec(2));
        assert(r@[3]@ =~= globals_dir_spec(3));
    }
    r
}

/// Whether the last directory of `globals_lookup_dirs` doubles as the
/// fallback installation root.
pub fn fallback_last_globals_dir() -> (b: bool)
    ensures
        b,
{
    true
}

/// The environment variable the shell-profile synchronization turns on.
pub open spec fn gobin_var_chars() -> Seq<char> {
    seq!['G', 'O', 'B', 'I', 'N']
}

/// The pass-through argument that disables the synchronization.
pub open spec fn no_gobin_flag_chars() -> Seq<char> {
    seq!['-', '-', 'n', 'o', '-', 'g', 'o', 'b', 'i', 'n']
}

/// What one shell-profile synchronization should do: the variable
/// whose presence makes it unnecessary, the exports to write, the
/// search-path additions, and whether the caller asked to skip it.
pub struct ShellProfilePlan {
    /// Environment variable checked before synchronizing.
    pub check_var: String,
    /// Variables to export, as (name, value) pairs.
    pub export_vars: Vec<(String, String)>,
    /// Directories to append to the search path.
    pub extend_path: Vec<String>,
    /// Whether the pass-through arguments asked to skip the sync.
    pub skip_sync: bool,
}

/// Whether the pass-through arguments carry the disabling flag.
fn has_no_gobin(args: &Vec<String>) -> (r: bool)
    ensures
        r == exists|i: int| 0 <= i < args@.len() && args@[i]@ == no_gobin_flag_chars(),
{
    let mut i: usize = 0;
    while i < args.len()
        invariant
            i <= args@.len(),
            forall|m: int| 0 <= m < i ==> args@[m]@ != no_gobin_flag_chars(),
        decreases args@.len() - i,
    {
        let arg: &String = &args[i];
        let hit = str_eq(arg.as_str(), "--no-gobin");
        proof {
            reveal_strlit("--no-gobin");
            assert("--no-gobin"@ =~= no_gobin_flag_chars());
        }
        if hit {
            proof {
                assert(args@[i as int]@ == no_gobin_flag_chars());
            }
            return true;
        }
        i = i + 1;
    }
    false
}

/// The synchronization plan for one invocation: the fixed exports
/// around `GOBIN`, skipped when the pass-through arguments carry
/// `--no-gobin`.
pub fn sync_profile_plan(passthrough_args: &Vec<String>) -> (r: ShellProfilePlan)
    ensures
        r.check_var@ == gobin_var_chars(),
        r.export_vars@.len() == 1,
        r.export_vars@[0].0@ == gobin_var_chars(),
        r.export_vars@[0].1@ == globals_dir_spec(3),
        r.extend_path@.len() == 1,
        r.extend_path@[0]@ == globals_dir_spec(0),
        r.skip_sync == exists|i: int|
            0 <= i < passthrough_args@.len() && passthrough_args@[i]@ == no_gobin_flag_chars(),
{
    let check_var = String::from_str("GOBIN");
    let mut export_vars: Vec<(String, String)> = Vec::new();
    export_vars.push((String::from_str("GOBIN"), String::from_str("$HOME/go/bin")));
    let mut extend_path: Vec<String> = Vec::new();
    extend_path.push(String::from_str("$GOBIN"));
    let skip_sync = has_no_gobin(passthrough_args);
    proof {
        reveal_strlit("GOBIN");
        reveal_strlit("$HOME/go/bin");
        reveal_strlit("$GOBIN");
        assert(check_var@ =~= gobin_var_chars());
        assert(export_vars@[0].0@ =~= gobin_var_chars());
        assert(export_vars@[0].1@ =~= globals_dir_spec(3));
        assert(extend_path@[0]@ =~= globals_dir_spec(0));
    }
    ShellProfilePlan { check_var, export_vars, extend_path, skip_sync }
}

} // verus!
