//! The extractor's command line: target platforms, arguments, and the decisions taken on them
//! before any platform is queried.
use vstd::prelude::*;
use vstd::string::*;

use crate::model::{index_key_spec, opt_str_view, LayoutFile, LayoutMetadataView};
use crate::text::{str_chars, str_eq};


verus! {

/// Target platform for extraction.
#[derive(Debug, Clone, Copy, PartialEq, Eq)]
pub enum Platform {
    /// Microsoft Windows (uses `ToUnicodeEx`/`MapVirtualKeyExW`).
    Windows,
    /// Apple macOS (uses `UCKeyTranslate` via Carbon).
    Macos,
    /// X11/Linux via `libxkbcommon`.
    Linux,
    /// Android (offline `.kl`/`.kcm` parsing).
    Android,
}

/// The ASCII lower-case form of a character.
pub open spec fn ascii_lower(c: char) -> char {
    if 'A' <= c && c <= 'Z' {
        ((c as u32) + 32) as char
    } else {
        c
    }
}

/// Equal up to the case of ASCII letters.
pub open spec fn eq_ignore_ascii_case(a: Seq<char>, b: Seq<char>) -> bool {
    a.len() == b.len() && forall|i: int| 0 <= i < a.len() ==> ascii_lower(#[trigger] a[i]) == ascii_lower(b[i])
}

/// Whether `input` names the value `name`: exactly, or up to ASCII case when `ignore_case`.
pub open spec fn names(name: Seq<char>, input: Seq<char>, ignore_case: bool) -> bool {
    if ignore_case {
        eq_ignore_ascii_case(name, input)
    } else {
        name == input
    }
}

/// The command-line value of a platform.
pub open spec fn platform_name(p: Platform) -> Seq<char> {
    match p {
        Platform::Windows => "windows"@,
        Platform::Macos => "macos"@,
        Platform::Linux => "linux"@,
        Platform::Android => "android"@,
    }
}

fn lower(c: char) -> (r: char)
    ensures
        r == ascii_lower(c),
{
    if 'A' <= c && c <= 'Z' {
        let u = (c as u32) + 32;
        assert(u < 0xD800);
        ((c as u8) + 32) as char
    } else {
        c
    }
}

fn matches_name(name: &str, input: &str, ignore_case: bool) -> (r: bool)
    ensures
        r == names(name@, input@, ignore_case),
{
    if !ignore_case {
        return str_eq(name, input);
    }
    let a = str_chars(name);
    let b = str_chars(input);
    if a.len() != b.len() {
        return false;
    }
    for i in 0..a.len()
        invariant
            a@ == name@,
            b@ == input@,
            a@.len() == b@.len(),
            forall|j: int| 0 <= j < i ==> ascii_lower(#[trigger] a@[j]) == ascii_lower(b@[j]),
    {
        if lower(a[i]) != lower(b[i]) {
            return false;
        }
    }
    true
}

impl Platform {
    /// The platform whose command-line value (`windows`, `macos`, `linux`, `android`) `input`
    /// names, up to ASCII case when `ignore_case`; the error is `invalid variant: <input>`.
    pub fn from_str(input: &str, ignore_case: bool) -> (r: Result<Platform, String>)
        ensures
            match r {
                Ok(p) => names(platform_name(p), input@, ignore_case)
                    && forall|q: Platform| #[trigger] names(platform_name(q), input@, ignore_case)
                        ==> platform_order(p) <= platform_order(q),
                Err(msg) => (forall|q: Platform| !#[trigger] names(platform_name(q), input@, ignore_case))
                    && msg@ == "invalid variant: "@ + input@,
            },
    {
        if matches_name("windows", input, ignore_case) {
            Ok(Platform::Windows)
        } else if matches_name("macos", input, ignore_case) {
            Ok(Platform::Macos)
        } else if matches_name("linux", input, ignore_case) {
            Ok(Platform::Linux)
        } else if matches_name("android", input, ignore_case) {
            Ok(Platform::Android)
        } else {
            let mut msg = "invalid variant: ".to_owned();
            msg.append(input);
            assert forall|q: Platform| !#[trigger] names(platform_name(q), input@, ignore_case) by {
                match q {
                    Platform::Windows => {},
                    Platform::Macos => {},
                    Platform::Linux => {},
                    Platform::Android => {},
                }
            }
            Err(msg)
        }
    }
}

/// The order in which platforms are tried: the first that matches is taken.
pub open spec fn platform_order(p: Platform) -> int {
    match p {
        Platform::Windows => 0,
        Platform::Macos => 1,
        Platform::Linux => 2,
        Platform::Android => 3,
    }
}

/// The command-line arguments. Paths are kept as text.
#[derive(Debug, Clone, PartialEq, Eq)]
pub struct Cli {
    /// Target platform.
    pub platform: Platform,
    /// Output directory where the JSON layout file will be written.
    pub out_dir: String,
    /// Layout name (e.g. `us`, `fr`, `de`); required unless `all` is set.
    pub layout: Option<String>,
    /// Optional layout variant (e.g. `nodeadkeys`, `intl`).
    pub layout_variant: Option<String>,
    /// Extract every layout the host declares into `out_dir`.
    pub all: bool,
    /// Path to an Android `.kl` file (Android platform only).
    pub android_kl: Option<String>,
    /// Path to an Android `.kcm` file (Android platform only).
    pub android_kcm: Option<String>,
}

/// A command line that cannot be run.
#[derive(Debug, Clone, Copy, PartialEq, Eq)]
pub enum CliError {
    /// `--all` for Android, which has no installed layouts to enumerate.
    AllUnsupported,
    /// Neither `--layout` nor `--all`.
    MissingLayout,
    /// Android without `--android-kl`.
    MissingAndroidKl,
    /// Android without `--android-kcm`.
    MissingAndroidKcm,
}

/// What a command line asks for.
#[derive(Debug, Clone, PartialEq, Eq)]
pub enum Task {
    /// Extract every layout of the platform.
    All(Platform),
    /// Extract the named layout.
    One { platform: Platform, layout: String },
}

/// The task of a command line: `--all` (not for Android), else the layout given by `--layout`.
pub fn task_of(cli: &Cli) -> (r: Result<Task, CliError>)
    ensures
        cli.all && cli.platform != Platform::Android ==> r == Ok::<Task, CliError>(Task::All(cli.platform)),
        cli.all && cli.platform == Platform::Android ==> r == Err::<Task, CliError>(CliError::AllUnsupported),
        !cli.all && cli.layout is None ==> r == Err::<Task, CliError>(CliError::MissingLayout),
        !cli.all && cli.layout is Some ==> (r matches Ok(Task::One { platform, layout }) && platform
            == cli.platform && layout@ == cli.layout->0@),
{
    if cli.all {
        match cli.platform {
            Platform::Android => Err(CliError::AllUnsupported),
            p => Ok(Task::All(p)),
        }
    } else {
        match &cli.layout {
            Some(l) => Ok(Task::One { platform: cli.platform, layout: l.clone() }),
            None => Err(CliError::MissingLayout),
        }
    }
}

/// The `.kl` and `.kcm` paths an Android extraction needs, in that order.
pub fn android_inputs(cli: &Cli) -> (r: Result<(String, String), CliError>)
    ensures
        cli.android_kl is None ==> r == Err::<(String, String), CliError>(CliError::MissingAndroidKl),
        cli.android_kl is Some && cli.android_kcm is None ==> r == Err::<(String, String), CliError>(
            CliError::MissingAndroidKcm,
        ),
        cli.android_kl is Some && cli.android_kcm is Some ==> (r matches Ok((kl, kcm)) && kl@
            == cli.android_kl->0@ && kcm@ == cli.android_kcm->0@),
{
    let kl = match &cli.android_kl {
        Some(p) => p.clone(),
        None => {
            return Err(CliError::MissingAndroidKl);
        },
    };
    let kcm = match &cli.android_kcm {
        Some(p) => p.clone(),
        None => {
            return Err(CliError::MissingAndroidKcm);
        },
    };
    Ok((kl, kcm))
}

/// A layout given the name and variant the user asked for.
pub fn relabel(layout: LayoutFile, name: &str, variant: Option<String>) -> (r: LayoutFile)
    ensures
        r@.metadata == (LayoutMetadataView {
            layout_name: name@,
            layout_variant: variant.deep_view(),
            ..layout@.metadata
        }),
        r@.mappings == layout@.mappings,
{
    let mut layout = layout;
    layout.metadata.layout_name = name.to_owned();
    layout.metadata.layout_variant = variant;
    layout
}

/// The stem of a layout's file name: `layout`, or `layout+variant` for a non-empty variant.
pub open spec fn file_stem_spec(layout: Seq<char>, variant: Option<Seq<char>>) -> Seq<char> {
    if variant is Some && variant->0.len() > 0 {
        layout + seq!['+'] + variant->0
    } else {
        layout
    }
}

/// The stem of a layout's file name (the file is `<stem>.json`).
pub fn file_stem(layout: &str, variant: Option<&str>) -> (r: String)
    ensures
        r@ == file_stem_spec(layout@, opt_str_view(variant)),
{
    let mut r = layout.to_owned();
    match variant {
        Some(v) => {
            if !v.is_empty() {
                r.push('+');
                r.append(v);
            }
        },
        None => {},
    }
    r
}

/// A layout's database key is its platform, a slash, and the stem of the file it is written
/// to: both append `+variant` exactly when the variant is present and not empty.
pub proof fn lemma_index_key_is_platform_and_stem(platform: Seq<char>, name: Seq<char>, variant: Option<Seq<char>>)
    ensures
        index_key_spec(platform, name, variant) == platform + seq!['/'] + file_stem_spec(name, variant),
{
    if variant is Some && variant->0.len() > 0 {
        assert(platform + seq!['/'] + name + seq!['+'] + variant->0 =~= platform + seq!['/'] + (name + seq!['+'] + variant->0));
    }
}

/// Each platform's command-line value names that platform and no other, exactly or up to
/// ASCII case; so reading back the value of a platform gives the platform.
pub proof fn lemma_platform_name_round_trip(p: Platform, ignore_case: bool)
    ensures
        forall|q: Platform| #[trigger] names(platform_name(q), platform_name(p), ignore_case) <==> q == p,
{
    reveal_strlit("windows");
    reveal_strlit("macos");
    reveal_strlit("linux");
    reveal_strlit("android");
    assert forall|q: Platform| #[trigger] names(platform_name(q), platform_name(p), ignore_case) implies q == p by {
        let a = platform_name(q);
        let b = platform_name(p);
        if q != p {
            if a.len() == b.len() {
                assert(ascii_lower(a[0]) != ascii_lower(b[0]) || ascii_lower(a[1]) != ascii_lower(b[1]));
            }
        }
    }
    assert forall|q: Platform| q == p implies #[trigger] names(platform_name(q), platform_name(p), ignore_case) by {
        assert forall|i: int| 0 <= i < platform_name(p).len() implies ascii_lower(#[trigger] platform_name(q)[i])
            == ascii_lower(platform_name(p)[i]) by {}
    }
}

} // verus!
