use srt_editor::models::{
    download_progress, get_available_models, get_model_filename, get_model_path,
    is_model_downloaded, model_dir_in, model_download_url, model_info, same_text,
};

#[test]
fn model_file_names() {
    assert_eq!(get_model_filename("large"), "ggml-large-v3.bin");
    assert_eq!(get_model_filename("turbo"), "ggml-large-v3-turbo.bin");
    assert_eq!(get_model_filename("tiny"), "ggml-tiny.bin");
}

#[test]
fn model_paths_and_urls() {
    assert_eq!(get_model_path("/m", "base"), "/m/ggml-base.bin");
    assert_eq!(
        model_download_url("large"),
        "https://huggingface.co/ggerganov/whisper.cpp/resolve/main/ggml-large-v3.bin"
    );
    assert_eq!(model_dir_in("/home/u"), "/home/u/.config/srt-editor/models");
}

#[test]
fn catalogue_without_models_on_disk() {
    let dir = "/nonexistent-model-dir-for-tests";
    let models = get_available_models(dir);
    let names: Vec<&str> = models.iter().map(|m| m.name.as_str()).collect();
    assert_eq!(names, vec!["tiny", "base", "small", "medium", "large", "turbo"]);
    assert_eq!(models[3].size, "1.5 GB");
    assert!(models.iter().all(|m| !m.downloaded && m.path.is_none()));
    assert!(!is_model_downloaded(dir, "tiny"));
}

#[test]
fn info_carries_path_when_downloaded() {
    let m = model_info("small", "466 MB", "/d", true);
    assert_eq!(m.path.as_deref(), Some("/d/ggml-small.bin"));
    let n = model_info("small", "466 MB", "/d", false);
    assert!(n.path.is_none());
}

#[test]
fn download_progress_tenths() {
    assert_eq!(download_progress(5, 0), None);
    assert_eq!(download_progress(1, 3), Some(333));
    assert_eq!(download_progress(10, 10), Some(1000));
    assert_eq!(download_progress(20, 10), Some(1000));
}

#[test]
fn text_equality() {
    assert!(same_text("abc", "abc"));
    assert!(!same_text("abc", "abd"));
    assert!(!same_text("ab", "abc"));
}
