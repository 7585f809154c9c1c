use qwen_forced_aligner::batch::{
    collect_jobs, default_output_path, file_stem_string, manifest_directory, manifest_job, manifest_lines,
    require_jobs, resolve_relative_to, BatchError, ManifestJob, PathStyle,
};
use qwen_forced_aligner::request::{AlignRequest, AudioInput, TextInput};
use std::path::Path;

fn job(audio: &str, output: Option<&str>, language: Option<&str>) -> ManifestJob {
    ManifestJob {
        audio: audio.to_string(),
        text: "a.txt".to_string(),
        output: output.map(str::to_string),
        language: language.map(str::to_string),
    }
}

#[test]
fn relative_paths_start_at_the_directory() {
    assert_eq!(resolve_relative_to(PathStyle::Unix, "dir", "a.wav".to_string()), "dir/a.wav");
    assert_eq!(resolve_relative_to(PathStyle::Unix, "dir/", "a.wav".to_string()), "dir/a.wav");
    assert_eq!(resolve_relative_to(PathStyle::Unix, "", "a.wav".to_string()), "a.wav");
    assert_eq!(resolve_relative_to(PathStyle::Unix, "dir", "/a.wav".to_string()), "/a.wav");
    let cases = [("a", "b"), ("a/", "b"), ("", "b"), ("/", "b"), ("a", "/b"), (".", "b/c")];
    for (base, path) in cases {
        let expected = Path::new(base).join(path);
        let found = resolve_relative_to(PathStyle::Unix, base, path.to_string());
        assert_eq!(found, expected.to_str().unwrap());
    }
}

#[test]
fn stems_are_those_of_the_standard_library() {
    for path in [
        "a.wav", "dir/a.b.wav", "a", ".hidden", "dir/.hidden.wav", "a.", "dir/a.wav/", "a/.",
        "a.wav/./", "dir/.../", "...", "a..b",
    ] {
        let expected = Path::new(path).file_stem().unwrap().to_str().unwrap();
        assert_eq!(file_stem_string(PathStyle::Unix, path).unwrap(), expected, "{}", path);
    }
    for path in ["", "/", ".", "..", "a/..", "./", "//"] {
        assert!(Path::new(path).file_stem().is_none());
        match file_stem_string(PathStyle::Unix, path) {
            Err(BatchError::NoFileStem(p)) => assert_eq!(p, path),
            other => panic!("{:?}", other),
        }
    }
}

#[test]
fn outputs_are_named_after_the_audio() {
    let found = default_output_path(PathStyle::Unix, "x/talk.one.wav", "out").unwrap();
    assert_eq!(found, "out/talk.one.json");
    assert!(default_output_path(PathStyle::Unix, "x/..", "out").is_err());
}

#[test]
fn jobs_of_a_manifest() {
    let plain = job("a.wav", None, None);
    let found = manifest_job(PathStyle::Unix, &plain, "m", "out", "English").unwrap();
    assert!(matches!(&found.request.audio, AudioInput::Path(p) if p == "m/a.wav"));
    assert!(matches!(&found.request.text, TextInput::Path(p) if p == "m/a.txt"));
    assert_eq!(found.request.language, "English");
    assert_eq!(found.output, "out/a.json");

    let named = job("/a.wav", Some("b.json"), Some("Korean"));
    let found = manifest_job(PathStyle::Unix, &named, "m", "out", "English").unwrap();
    assert!(matches!(&found.request.audio, AudioInput::Path(p) if p == "/a.wav"));
    assert_eq!(found.request.language, "Korean");
    assert_eq!(found.output, "out/b.json");

    let blank = job("a.wav", Some("/b"), Some("  "));
    let found = manifest_job(PathStyle::Unix, &blank, "m", "out", "English").unwrap();
    assert_eq!(found.request.language, "English");
    assert_eq!(found.output, "/b");

    let failed = manifest_job(PathStyle::Unix, &job("..", None, None), "m", "out", "English");
    assert!(matches!(failed, Err(BatchError::NoFileStem(p)) if p == "m/.."));
}

#[test]
fn paths_with_drives_and_shares() {
    for (base, path, expected) in [
        ("dir", "a.wav", "dir\\a.wav"),
        ("dir/", "a.wav", "dir/a.wav"),
        ("C:", "a.wav", "C:a.wav"),
        ("C:\\jobs", "x\\a.wav", "C:\\jobs\\x\\a.wav"),
        ("C:\\jobs", "D:\\a.wav", "D:\\a.wav"),
        ("C:\\jobs", "D:a.wav", "D:a.wav"),
        ("C:\\jobs", "\\a.wav", "C:\\a.wav"),
        ("C:\\jobs", "\\\\server\\share\\a.wav", "\\\\server\\share\\a.wav"),
        ("\\\\server\\share\\jobs", "/a.wav", "\\\\server\\share/a.wav"),
        ("", "a.wav", "a.wav"),
    ] {
        let found = resolve_relative_to(PathStyle::Windows, base, path.to_string());
        assert_eq!(found, expected);
    }
    for (path, expected) in [
        ("C:\\jobs\\a.b.wav", "a.b"),
        ("C:a.wav", "a"),
        ("jobs/a.wav\\", "a"),
        ("\\\\server\\share\\a.wav", "a"),
        ("\\\\server", "server"),
    ] {
        assert_eq!(file_stem_string(PathStyle::Windows, path).unwrap(), expected);
    }
    for path in ["C:", "C:\\", "\\\\server\\share", "C:\\..", "\\"] {
        assert!(file_stem_string(PathStyle::Windows, path).is_err());
    }
    assert_eq!(file_stem_string(PathStyle::Unix, "C:\\a.wav").unwrap(), "C:\\a");
    let found = manifest_job(
        PathStyle::Windows,
        &job("talk.wav", None, None),
        "C:\\jobs",
        "D:\\out",
        "English",
    )
    .unwrap();
    assert!(matches!(&found.request.audio, AudioInput::Path(p) if p == "C:\\jobs\\talk.wav"));
    assert_eq!(found.output, "D:\\out\\talk.json");
}

#[test]
fn verbatim_paths_are_taken_step_by_step() {
    for (base, path, expected) in [
        ("\\\\?\\C:\\jobs", "a.wav", "\\\\?\\C:\\jobs\\a.wav"),
        ("\\\\?\\C:\\jobs\\", "x/./y/../a.wav", "\\\\?\\C:\\jobs\\x\\a.wav"),
        ("\\\\?\\C:\\jobs", "..\\..\\..\\a.wav", "\\\\?\\C:\\a.wav"),
        ("\\\\?\\C:\\jobs", "..", "\\\\?\\C:\\"),
        ("\\\\?\\C:\\jobs", "\\a.wav", "\\\\?\\C:\\a.wav"),
        ("\\\\?\\C:\\jobs", "\\", "\\\\?\\C:\\"),
        ("\\\\?\\C:", "a.wav", "\\\\?\\C:\\a.wav"),
        ("\\\\?\\C:", ".", "\\\\?\\C:"),
        ("\\\\?\\UNC\\server\\share\\jobs", "/a.wav", "\\\\?\\UNC\\server\\share\\a.wav"),
        ("\\\\?\\C:\\a/b", "c", "\\\\?\\C:\\a/b\\c"),
        ("\\\\?\\C:\\jobs", "D:\\a.wav", "D:\\a.wav"),
        ("jobs", "\\\\?\\C:\\a.wav", "\\\\?\\C:\\a.wav"),
        ("\\\\?\\C:\\jobs", "", "\\\\?\\C:\\jobs\\"),
    ] {
        let found = resolve_relative_to(PathStyle::Windows, base, path.to_string());
        assert_eq!(found, expected);
    }
    for (path, expected) in [
        ("\\\\?\\C:\\jobs\\a/b.wav", "a/b"),
        ("\\\\?\\C:/a.wav", "a"),
        ("\\\\?\\UNC\\server\\share\\a.wav", "a"),
        ("\\\\?\\cat\\a.wav\\", "a"),
        ("\\\\.\\COM1\\a.wav", "a"),
    ] {
        assert_eq!(file_stem_string(PathStyle::Windows, path).unwrap(), expected);
    }
    let nameless = [
        "\\\\?\\C:\\a\\.",
        "\\\\?\\C:\\a\\..",
        "\\\\?\\cat",
        "\\\\?\\UNC\\server\\share",
        "\\\\.\\COM1",
        "\\\\?\\",
    ];
    for path in nameless {
        assert!(file_stem_string(PathStyle::Windows, path).is_err());
    }
}

#[test]
fn blank_lines_of_a_manifest_do_not_count() {
    let found = manifest_lines("\n {\"a\":1} \r\n\n{}\n");
    let found: Vec<(usize, &str)> = found.iter().map(|l| (l.number, l.text.as_str())).collect();
    assert_eq!(found, vec![(2, "{\"a\":1}"), (4, "{}")]);
    assert!(manifest_lines(" \n").is_empty());
}

#[test]
fn a_batch_needs_a_job() {
    assert!(matches!(require_jobs(Vec::new()), Err(BatchError::NoJobs)));
    let plain = job("a.wav", None, None);
    let one = manifest_job(PathStyle::Unix, &plain, "m", "out", "English").unwrap();
    assert_eq!(require_jobs(vec![one]).unwrap().len(), 1);
}

#[test]
fn batches_keep_the_order_of_their_lines() {
    let collect = |lines: Vec<ManifestJob>| {
        collect_jobs(PathStyle::Unix, lines, "m", "out", "English")
    };
    let lines = vec![
        job("b.wav", None, None),
        job("a.wav", Some("x.json"), Some("Korean")),
        job("..", Some("y.json"), None),
    ];
    let outputs: Vec<String> = collect(lines).unwrap().into_iter().map(|b| b.output).collect();
    assert_eq!(outputs, vec!["out/b.json", "out/x.json", "out/y.json"]);
    assert!(matches!(collect(Vec::new()), Err(BatchError::NoJobs)));
    let bad = vec![job("a.wav", None, None), job("c/..", None, None), job("..", None, None)];
    assert!(matches!(collect(bad), Err(BatchError::NoFileStem(p)) if p == "m/c/.."));
}

#[test]
fn manifests_without_a_directory() {
    assert_eq!(manifest_directory(None), ".");
    assert_eq!(manifest_directory(Some(String::new())), ".");
    assert_eq!(manifest_directory(Some("x/y".to_string())), "x/y");
}

#[test]
fn requests_hold_what_they_are_given() {
    let r = AlignRequest::from_paths("a.wav".to_string(), "a.txt".to_string(), "German".to_string());
    assert!(matches!(&r.audio, AudioInput::Path(p) if p == "a.wav"));
    assert!(matches!(&r.text, TextInput::Path(p) if p == "a.txt"));
    assert_eq!(r.language, "German");
    let r = AlignRequest::new(
        AudioInput::Waveform16Khz(vec![0, 0x3f80_0000]),
        TextInput::Text("hello".to_string()),
        "English".to_string(),
    );
    assert!(matches!(&r.audio, AudioInput::Waveform16Khz(w) if w.len() == 2));
    assert!(matches!(&r.text, TextInput::Text(t) if t == "hello"));
}
