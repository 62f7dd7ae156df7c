use vstd::prelude::*;

use crate::error::PipelineError;

verus! {

/// One model of the catalogue, with what the disk says of it.
#[derive(Debug, Clone)]
pub struct WhisperModelInfo {
    pub name: String,
    pub size: String,
    pub downloaded: bool,
    pub path: Option<String>,
}

/// Number of models in the catalogue.
pub const MODEL_COUNT: usize = 6;

pub open spec fn catalogue_name(i: int) -> Seq<char> {
    if i == 0 {
        "tiny"@
    } else if i == 1 {
        "base"@
    } else if i == 2 {
        "small"@
    } else if i == 3 {
        "medium"@
    } else if i == 4 {
        "large"@
    } else {
        "turbo"@
    }
}

pub open spec fn catalogue_size(i: int) -> Seq<char> {
    if i == 0 {
        "75 MB"@
    } else if i == 1 {
        "142 MB"@
    } else if i == 2 {
        "466 MB"@
    } else if i == 3 {
        "1.5 GB"@
    } else if i == 4 {
        "2.9 GB"@
    } else {
        "1.5 GB"@
    }
}

/// The file that holds model `name`.
pub open spec fn model_filename(name: Seq<char>) -> Seq<char> {
    if name == "large"@ {
        "ggml-large-v3.bin"@
    } else if name == "turbo"@ {
        "ggml-large-v3-turbo.bin"@
    } else {
        "ggml-"@ + name + ".bin"@
    }
}

pub open spec fn model_path(dir: Seq<char>, name: Seq<char>) -> Seq<char> {
    dir + "/"@ + model_filename(name)
}

pub open spec fn model_url(name: Seq<char>) -> Seq<char> {
    "https://huggingface.co/ggerganov/whisper.cpp/resolve/main/"@ + model_filename(name)
}

pub open spec fn model_dir_suffix() -> Seq<char> {
    "/.config/srt-editor/models"@
}

/// Relies on `dirs::home_dir`: the current user's home directory, if the
/// platform knows one. It depends on the environment, so nothing is stated.
#[verifier::external_body]
fn home_dir() -> (r: Option<String>) {
    dirs::home_dir().map(|p| p.to_string_lossy().to_string())
}

/// Relies on `std::path::Path::exists`: whether something is at `path` at
/// the moment of the call. It depends on the disk, so nothing is stated.
#[verifier::external_body]
fn path_exists(path: &str) -> (r: bool) {
    std::path::Path::new(path).exists()
}

/// Whether two texts are equal.
pub fn same_text(a: &str, b: &str) -> (r: bool)
    ensures
        r == (a@ == b@),
{
    let n = a.unicode_len();
    if n != b.unicode_len() {
        return false;
    }
    let mut i: usize = 0;
    while i < n
        invariant
            n == a@.len(),
            n == b@.len(),
            i <= n,
            forall|j: int| 0 <= j < i ==> a@[j] == b@[j],
        decreases n - i,
    {
        if a.get_char(i) != b.get_char(i) {
            return false;
        }
        i = i + 1;
    }
    assert(a@ =~= b@);
    true
}

/// The directory under `home` that holds the models.
pub fn model_dir_in(home: &str) -> (r: String)
    ensures
        r@ == home@ + model_dir_suffix(),
{
    let mut out = String::from_str(home);
    out.append("/.config/srt-editor/models");
    out
}

/// The model directory of the current user.
pub fn model_dir_location() -> (r: Result<String, PipelineError>)
    ensures
        r matches Ok(d) ==> exists|h: Seq<char>| d@ == h + model_dir_suffix(),
        r matches Err(e) ==> e is NoHomeDir,
{
    match home_dir() {
        Some(h) => Ok(model_dir_in(h.as_str())),
        None => Err(PipelineError::NoHomeDir),
    }
}

/// The file name of model `model_size`.
pub fn get_model_filename(model_size: &str) -> (r: String)
    ensures
        r@ == model_filename(model_size@),
{
    if same_text(model_size, "large") {
        String::from_str("ggml-large-v3.bin")
    } else if same_text(model_size, "turbo") {
        String::from_str("ggml-large-v3-turbo.bin")
    } else {
        let mut out = String::from_str("ggml-");
        out.append(model_size);
        out.append(".bin");
        out
    }
}

/// Where model `model_size` lives in `model_dir`.
pub fn get_model_path(model_dir: &str, model_size: &str) -> (r: String)
    ensures
        r@ == model_path(model_dir@, model_size@),
{
    let mut out = String::from_str(model_dir);
    out.append("/");
    let name = get_model_filename(model_size);
    out.append(name.as_str());
    out
}

/// Whether model `model_size` is on disk in `model_dir`.
pub fn is_model_downloaded(model_dir: &str, model_size: &str) -> (r: bool) {
    let path = get_model_path(model_dir, model_size);
    path_exists(path.as_str())
}

/// Where model `model_size` is fetched from.
pub fn model_download_url(model_size: &str) -> (r: String)
    ensures
        r@ == model_url(model_size@),
{
    let mut out = String::from_str("https://huggingface.co/ggerganov/whisper.cpp/resolve/main/");
    let name = get_model_filename(model_size);
    out.append(name.as_str());
    out
}

/// Download progress in tenths of a percent, when the total is known.
pub fn download_progress(received: u64, total: u64) -> (r: Option<u32>)
    ensures
        total == 0 ==> r is None,
        total > 0 ==> r == Some(
            (if (received as int) * 1000 / (total as int) > 1000 {
                1000
            } else {
                (received as int) * 1000 / (total as int)
            }) as u32,
        ),
{
    if total == 0 {
        return None;
    }
    let p: u128 = (received as u128) * 1000 / (total as u128);
    if p > 1000 {
        Some(1000)
    } else {
        Some(p as u32)
    }
}

fn catalogue_entry(i: usize) -> (r: (&'static str, &'static str))
    requires
        i < MODEL_COUNT,
    ensures
        r.0@ == catalogue_name(i as int),
        r.1@ == catalogue_size(i as int),
{
    if i == 0 {
        ("tiny", "75 MB")
    } else if i == 1 {
        ("base", "142 MB")
    } else if i == 2 {
        ("small", "466 MB")
    } else if i == 3 {
        ("medium", "1.5 GB")
    } else if i == 4 {
        ("large", "2.9 GB")
    } else {
        ("turbo", "1.5 GB")
    }
}

/// The description of one model: its path is given only when it is on disk.
pub fn model_info(name: &str, size: &str, model_dir: &str, downloaded: bool) -> (r:
    WhisperModelInfo)
    ensures
        r.name@ == name@,
        r.size@ == size@,
        r.downloaded == downloaded,
        downloaded ==> (r.path matches Some(p) && p@ == model_path(model_dir@, name@)),
        !downloaded ==> r.path is None,
{
    let path = if downloaded {
        Some(get_model_path(model_dir, name))
    } else {
        None
    };
    WhisperModelInfo {
        name: String::from_str(name),
        size: String::from_str(size),
        downloaded,
        path,
    }
}

/// The catalogue of models, each with whether it is on disk in
/// `model_dir` and, if so, its path.
pub fn get_available_models(model_dir: &str) -> (r: Vec<WhisperModelInfo>)
    ensures
        r@.len() == MODEL_COUNT,
        forall|i: int|
            0 <= i < MODEL_COUNT ==> {
                let m = #[trigger] r@[i];
                &&& m.name@ == catalogue_name(i)
                &&& m.size@ == catalogue_size(i)
                &&& m.downloaded ==> (m.path matches Some(p) && p@ == model_path(
                    model_dir@,
                    catalogue_name(i),
                ))
                &&& !m.downloaded ==> m.path is None
            },
{
    let mut out: Vec<WhisperModelInfo> = Vec::new();
    let mut i: usize = 0;
    while i < MODEL_COUNT
        invariant
            i <= MODEL_COUNT,
            out@.len() == i,
            forall|j: int|
                0 <= j < i ==> {
                    let m = #[trigger] out@[j];
                    &&& m.name@ == catalogue_name(j)
                    &&& m.size@ == catalogue_size(j)
                    &&& m.downloaded ==> (m.path matches Some(p) && p@ == model_path(
                        model_dir@,
                        catalogue_name(j),
                    ))
                    &&& !m.downloaded ==> m.path is None
                },
        decreases MODEL_COUNT - i,
    {
        let (name, size) = catalogue_entry(i);
        let downloaded = is_model_downloaded(model_dir, name);
        out.push(model_info(name, size, model_dir, downloaded));
        i = i + 1;
    }
    out
}

} // verus!
