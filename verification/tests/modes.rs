use led_visualizer::modes::{launch_flags, use_real_audio, LaunchFlags};

fn flags(args: &[&str]) -> LaunchFlags {
    let args: Vec<String> = args.iter().map(|s| s.to_string()).collect();
    launch_flags(&args)
}

#[test]
fn switches_are_read_anywhere() {
    let f = flags(&["server", "--production", "--force-audio"]);
    assert_eq!(
        f,
        LaunchFlags { test_mode: false, force_audio: true, production_mode: true, no_audio_sim: false, force_test: false }
    );
    let f = flags(&["--real-audio-only", "x", "--test"]);
    assert!(f.no_audio_sim && f.test_mode && !f.production_mode);
    // Only exact matches count.
    assert_eq!(flags(&["--tests", "production"]), flags(&[]));
}

#[test]
fn audio_source_choice() {
    assert!(use_real_audio(&flags(&[])));
    assert!(!use_real_audio(&flags(&["--test"])));
    assert!(use_real_audio(&flags(&["--test", "--audio"])));
    assert!(use_real_audio(&flags(&["--test", "--no-sim"])));
    assert!(use_real_audio(&flags(&["--production", "--test"])));
    assert!(!use_real_audio(&flags(&["--production", "--force-test", "--test"])));
    assert!(use_real_audio(&flags(&["--production", "--force-test"])));
}
