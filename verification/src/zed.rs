//! Where an editor finds the binary of the language server.

use crate::strings::{join2, join3, str_eq, strip_prefix};
use vstd::prelude::*;

verus! {

#[derive(Debug, Clone, Copy, PartialEq, Eq, Structural)]
pub enum Os {
    Mac,
    Linux,
    Windows,
}

#[derive(Debug, Clone, Copy, PartialEq, Eq, Structural)]
pub enum Architecture {
    Aarch64,
    X86,
    X8664,
}

/// The label of a platform that there are binaries for.
pub open spec fn platform_label(platform: Os, arch: Architecture) -> Option<Seq<char>> {
    match (platform, arch) {
        (Os::Mac, Architecture::Aarch64) => Some("macos-aarch64"@),
        (Os::Mac, Architecture::X8664) => Some("macos-x86_64"@),
        (Os::Linux, Architecture::X8664) => Some("linux-x86_64"@),
        (Os::Windows, Architecture::X8664) => Some("windows-x86_64"@),
        _ => None,
    }
}

/// The names of what belongs to a release for a platform.
#[derive(Debug)]
pub struct Release {
    pub binary_name: String,
    /// Where a binary that several editors share is.
    pub shared_path: String,
    pub archive_name: String,
    pub download_url: String,
    /// The directory that the archive is unpacked to.
    pub install_dir: String,
    /// Where the binary then is.
    pub binary_path: String,
}

/// What a [`Release`] holds.
pub struct ReleaseView {
    pub binary_name: Seq<char>,
    pub shared_path: Seq<char>,
    pub archive_name: Seq<char>,
    pub download_url: Seq<char>,
    pub install_dir: Seq<char>,
    pub binary_path: Seq<char>,
}

impl DeepView for Release {
    type V = ReleaseView;

    open spec fn deep_view(&self) -> ReleaseView {
        ReleaseView {
            binary_name: self.binary_name@,
            shared_path: self.shared_path@,
            archive_name: self.archive_name@,
            download_url: self.download_url@,
            install_dir: self.install_dir@,
            binary_path: self.binary_path@,
        }
    }
}

/// The release of the given version for a platform that there are binaries for.
pub open spec fn release_of(platform: Os, arch: Architecture, version: Seq<char>) -> Option<
    ReleaseView,
> {
    match platform_label(platform, arch) {
        Some(label) => {
            let suffix = if platform == Os::Windows {
                ".exe"@
            } else {
                ""@
            };
            let binary_name = "rsml-lsp-"@ + label + suffix;
            let archive_name = "rsml-lsp-server-"@ + label + ".zip"@;
            let install_dir = "rsml-lsp-"@ + version;
            Some(
                ReleaseView {
                    binary_name,
                    shared_path: "../shared/servers/"@ + binary_name,
                    archive_name,
                    download_url:
                        "https://github.com/rbx-rsml/rsml-lsp/releases/download/lsp-v"@ + version
                        + "/"@ + archive_name,
                    install_dir,
                    binary_path: install_dir + "/"@ + binary_name,
                },
            )
        },
        None => None,
    }
}

fn label_of(platform: Os, arch: Architecture) -> (r: Option<&'static str>)
    ensures
        r.deep_view() == platform_label(platform, arch),
{
    match (platform, arch) {
        (Os::Mac, Architecture::Aarch64) => Some("macos-aarch64"),
        (Os::Mac, Architecture::X8664) => Some("macos-x86_64"),
        (Os::Linux, Architecture::X8664) => Some("linux-x86_64"),
        (Os::Windows, Architecture::X8664) => Some("windows-x86_64"),
        _ => None,
    }
}

impl Release {
    /// The release of the given version for a platform; nothing where there are no binaries
    /// for it.
    pub fn new(platform: Os, arch: Architecture, version: &str) -> (r: Option<Self>)
        ensures
            r.deep_view() == release_of(platform, arch, version@),
    {
        let label = match label_of(platform, arch) {
            Some(label) => label,
            None => return None,
        };
        let suffix = if platform == Os::Windows {
            ".exe"
        } else {
            ""
        };
        let binary_name = join3("rsml-lsp-", label, suffix);
        let archive_name = join3("rsml-lsp-server-", label, ".zip");
        let install_dir = join2("rsml-lsp-", version);
        let shared_path = join2("../shared/servers/", binary_name.as_str());
        let mut download_url = join3(
            "https://github.com/rbx-rsml/rsml-lsp/releases/download/lsp-v",
            version,
            "/",
        );
        download_url.append(archive_name.as_str());
        let binary_path = join3(install_dir.as_str(), "/", binary_name.as_str());
        Some(
            Release {
                binary_name,
                shared_path,
                archive_name,
                download_url,
                install_dir,
                binary_path,
            },
        )
    }

    /// Whether a directory is that of another release.
    pub fn is_stale(&self, name: &str) -> (r: bool)
        ensures
            r == ("rsml-lsp-"@.is_prefix_of(name@) && name@ != self.install_dir@),
    {
        strip_prefix(name, "rsml-lsp-").is_some() && !str_eq(name, self.install_dir.as_str())
    }
}

/// What is said when a release could not be downloaded.
pub open spec fn download_error(release: ReleaseView, error: Seq<char>) -> Seq<char> {
    "failed to download "@ + release.archive_name + ": "@ + error
        + "\n\nInstall manually by running: extensions/install-server.sh\nThen configure in Zed settings:\n{\n  \"lsp\": {\n    \"rsml-lsp\": {\n      \"binary\": {\n        \"path\": \"~/.local/bin/"@
        + release.binary_name + "\"\n      }\n    }\n  }\n}"@
}

impl Release {
    /// What is said when the release could not be downloaded.
    pub fn download_error_text(&self, error: &str) -> (r: String)
        ensures
            r@ == download_error(self.deep_view(), error@),
    {
        let mut text = join3("failed to download ", self.archive_name.as_str(), ": ");
        text.append(error);
        text.append(
            "\n\nInstall manually by running: extensions/install-server.sh\nThen configure in Zed settings:\n{\n  \"lsp\": {\n    \"rsml-lsp\": {\n      \"binary\": {\n        \"path\": \"~/.local/bin/",
        );
        text.append(self.binary_name.as_str());
        text.append("\"\n      }\n    }\n  }\n}");
        text
    }
}

/// Where the binary comes from.
#[derive(Debug)]
pub enum Binary {
    /// It has been found before and is still there.
    Cached(String),
    /// It is on the search path.
    Installed(String),
    /// It is the shared one, which has to be made executable.
    Shared(String),
    /// It is that of the release, which has to be downloaded where it is not there.
    Released { path: String, download: bool },
}

/// What a [`Binary`] holds.
pub enum BinaryView {
    Cached(Seq<char>),
    Installed(Seq<char>),
    Shared(Seq<char>),
    Released { path: Seq<char>, download: bool },
}

impl DeepView for Binary {
    type V = BinaryView;

    open spec fn deep_view(&self) -> BinaryView {
        match self {
            Binary::Cached(path) => BinaryView::Cached(path@),
            Binary::Installed(path) => BinaryView::Installed(path@),
            Binary::Shared(path) => BinaryView::Shared(path@),
            Binary::Released { path, download } => BinaryView::Released {
                path: path@,
                download: *download,
            },
        }
    }
}

/// The binary that is used. `cached` is one that has been found before and is still there,
/// and `installed` is one on the search path.
pub open spec fn binary_of(
    cached: Option<Seq<char>>,
    installed: Option<Seq<char>>,
    has_shared: bool,
    has_released: bool,
    release: ReleaseView,
) -> BinaryView {
    match cached {
        Some(path) => BinaryView::Cached(path),
        None => match installed {
            Some(path) => BinaryView::Installed(path),
            None => if has_shared {
                BinaryView::Shared(release.shared_path)
            } else {
                BinaryView::Released { path: release.binary_path, download: !has_released }
            },
        },
    }
}

/// Decides which binary is used.
pub fn choose_binary(
    cached: Option<&str>,
    installed: Option<&str>,
    has_shared: bool,
    has_released: bool,
    release: &Release,
) -> (r: Binary)
    ensures
        r.deep_view() == binary_of(
            cached.deep_view(),
            installed.deep_view(),
            has_shared,
            has_released,
            release.deep_view(),
        ),
{
    match (cached, installed) {
        (Some(path), _) => Binary::Cached(path.to_owned()),
        (None, Some(path)) => Binary::Installed(path.to_owned()),
        (None, None) => if has_shared {
            Binary::Shared(release.shared_path.clone())
        } else {
            Binary::Released { path: release.binary_path.clone(), download: !has_released }
        },
    }
}

} // verus!
