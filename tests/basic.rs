use mtimer::{basic_plan, default_volume};

fn steps(length: u64, countdown: bool) -> Vec<(String, u64)> {
    basic_plan(length, countdown)
        .iter()
        .map(|p| (p.sound_path().to_string(), p.time_delay()))
        .collect()
}

fn s(path: &str, d: u64) -> (String, u64) {
    (path.to_string(), d)
}

#[test]
fn plain_timer_is_start_then_end() {
    assert_eq!(steps(30, false), vec![s("default/start.wav", 30), s("default/go.wav", 1)]);
    assert_eq!(steps(0, false), vec![s("default/start.wav", 0), s("default/go.wav", 1)]);
}

#[test]
fn countdown_from_ten() {
    assert_eq!(
        steps(25, true),
        vec![
            s("default/start.wav", 15),
            s("default/10_seconds.wav", 5),
            s("default/5_seconds.wav", 1),
            s("default/4_seconds.wav", 1),
            s("default/3_seconds.wav", 1),
            s("default/2_seconds.wav", 1),
            s("default/1_second.wav", 1),
            s("default/go.wav", 1),
        ]
    );
}

#[test]
fn countdown_from_five() {
    assert_eq!(
        steps(10, true),
        vec![
            s("default/start.wav", 5),
            s("default/5_seconds.wav", 1),
            s("default/4_seconds.wav", 1),
            s("default/3_seconds.wav", 1),
            s("default/2_seconds.wav", 1),
            s("default/1_second.wav", 1),
            s("default/go.wav", 1),
        ]
    );
}

#[test]
fn countdown_from_three() {
    assert_eq!(
        steps(4, true),
        vec![
            s("default/start.wav", 1),
            s("default/3_seconds.wav", 1),
            s("default/2_seconds.wav", 1),
            s("default/1_second.wav", 1),
            s("default/go.wav", 1),
        ]
    );
}

#[test]
fn short_countdown_is_plain() {
    assert_eq!(steps(3, true), vec![s("default/start.wav", 3), s("default/go.wav", 1)]);
}

#[test]
fn default_volume_is_half() {
    assert_eq!(default_volume(), 50);
}
