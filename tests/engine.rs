use audioengine::keys::{KeyAction, KeysState};
use audioengine::render::{install_latest, Renderer};

fn play(actions: &[KeyAction]) -> Option<i32> {
    let mut keys = KeysState::new();
    let mut note = keys.active_note();
    for a in actions {
        note = keys.key_down(*a);
    }
    note
}

#[test]
fn fresh_tracker_is_silent() {
    assert_eq!(KeysState::new().active_note(), None);
}

#[test]
fn press_then_release_is_silent() {
    assert_eq!(play(&[KeyAction::press(60), KeyAction::release(60)]), None);
}

#[test]
fn press_reports_note() {
    let mut keys = KeysState::new();
    assert_eq!(keys.key_down(KeyAction::press(60)), Some(60));
    assert_eq!(keys.active_note(), Some(60));
}

#[test]
fn last_pressed_wins() {
    assert_eq!(play(&[KeyAction::press(60), KeyAction::press(64)]), Some(64));
}

#[test]
fn releasing_older_key_keeps_newer() {
    let a = [KeyAction::press(60), KeyAction::press(64), KeyAction::release(60)];
    assert_eq!(play(&a), Some(64));
}

#[test]
fn releasing_newest_falls_back_to_older() {
    let a = [KeyAction::press(60), KeyAction::press(64), KeyAction::release(64)];
    assert_eq!(play(&a), Some(60));
}

#[test]
fn releasing_both_in_either_order_is_silent() {
    let a = [
        KeyAction::press(60),
        KeyAction::press(64),
        KeyAction::release(64),
        KeyAction::release(60),
    ];
    assert_eq!(play(&a), None);
    let b = [
        KeyAction::press(60),
        KeyAction::press(64),
        KeyAction::release(60),
        KeyAction::release(64),
    ];
    assert_eq!(play(&b), None);
}

#[test]
fn repress_moves_key_to_top() {
    let a = [
        KeyAction::press(60),
        KeyAction::press(64),
        KeyAction::press(60),
        KeyAction::release(60),
    ];
    assert_eq!(play(&a), Some(64));
}

#[test]
fn releasing_unheld_key_changes_nothing() {
    let a = [KeyAction::press(60), KeyAction::release(62)];
    assert_eq!(play(&a), Some(60));
}

#[test]
fn press_release_round_trip_keeps_other_keys() {
    let a = [KeyAction::press(60), KeyAction::press(67), KeyAction::release(67)];
    assert_eq!(play(&a), play(&[KeyAction::press(60)]));
}

#[test]
fn replaying_history_twice_gives_same_state() {
    let history = vec![
        KeyAction::press(60),
        KeyAction::press(62),
        KeyAction::press(64),
        KeyAction::release(62),
        KeyAction::release(64),
        KeyAction::press(65),
        KeyAction::release(60),
    ];
    let mut first = KeysState::new();
    let mut second = KeysState::new();
    let a = first.apply_all(&history);
    let b = second.apply_all(&history);
    assert_eq!(a, b);
    assert_eq!(a, Some(65));
    assert_eq!(first.active_note(), second.active_note());
    assert_eq!(play(&history), a);
}

#[test]
fn apply_all_of_nothing_keeps_note() {
    let mut keys = KeysState::new();
    keys.key_down(KeyAction::press(48));
    assert_eq!(keys.apply_all(&Vec::new()), Some(48));
}

#[test]
fn last_of_several_replacements_is_installed() {
    let mut current = 0u32;
    install_latest(&mut current, vec![1, 2, 3]);
    assert_eq!(current, 3);
}

#[test]
fn no_replacement_keeps_current() {
    let mut current = 7u32;
    install_latest(&mut current, Vec::new());
    assert_eq!(current, 7);
}

#[test]
fn replacement_stays_until_superseded() {
    let mut current = 0u32;
    install_latest(&mut current, vec![4, 5]);
    install_latest(&mut current, Vec::new());
    install_latest(&mut current, Vec::new());
    assert_eq!(current, 5);
    install_latest(&mut current, vec![9]);
    assert_eq!(current, 9);
}

#[test]
fn frames_in_counts_partial_frame() {
    let r = Renderer::new(44100, 2);
    assert_eq!(r.frames_in(0), 0);
    assert_eq!(r.frames_in(8), 4);
    assert_eq!(r.frames_in(7), 4);
    assert_eq!(Renderer::new(48000, 1).frames_in(5), 5);
}

#[test]
fn new_renderer_starts_at_zero() {
    let r = Renderer::new(44100, 2);
    assert_eq!(r.frame_index(), 0);
    assert_eq!(r.sample_rate(), 44100);
    assert_eq!(r.channels(), 2);
    assert_eq!(r.active_note(), None);
}

fn to_u16(v: f64) -> u16 {
    ((v * 0.5 + 0.5) * u16::MAX as f64) as u16
}

#[test]
fn default_sine_mono_four_frames() {
    let rate = 44100u32;
    let mut r = Renderer::new(rate, 1);
    let mut buffer = [0u16; 4];
    let mut times: Vec<f64> = Vec::new();
    let mut synth = |frame: u64, _note: Option<i32>| -> u16 {
        let t = frame as f64 / rate as f64;
        times.push(t);
        to_u16((t * 440.0 * 2.0 * std::f64::consts::PI).sin())
    };
    assert!(r.render_buffer(&mut buffer, &mut synth));
    assert_eq!(times.len(), 4);
    for w in times.windows(2) {
        assert!(w[1] > w[0]);
    }
    for (i, t) in times.iter().enumerate() {
        let expected = to_u16((t * 440.0 * 2.0 * std::f64::consts::PI).sin());
        assert_eq!(buffer[i], expected);
    }
    assert_eq!(buffer[0], 32767);
    assert!(buffer[1] > buffer[0]);
    assert_eq!(r.frame_index(), 4);
}

#[test]
fn stereo_frames_are_replicated() {
    let mut r = Renderer::new(44100, 2);
    let mut buffer = [0i16; 6];
    let mut synth = |frame: u64, _note: Option<i32>| -> i16 { (frame as i16 + 1) * 100 };
    assert!(r.render_buffer(&mut buffer, &mut synth));
    assert_eq!(buffer, [100, 100, 200, 200, 300, 300]);
    assert_eq!(r.frame_index(), 3);
}

#[test]
fn short_last_frame_is_filled() {
    let mut r = Renderer::new(44100, 3);
    let mut buffer = [0u32; 7];
    let mut synth = |frame: u64, _note: Option<i32>| -> u32 { frame as u32 + 10 };
    assert!(r.render_buffer(&mut buffer, &mut synth));
    assert_eq!(buffer, [10, 10, 10, 11, 11, 11, 12]);
    assert_eq!(r.frame_index(), 3);
}

#[test]
fn empty_buffer_renders_nothing() {
    let mut r = Renderer::new(44100, 2);
    let mut buffer: [u16; 0] = [];
    let mut calls = 0u32;
    let mut synth = |_frame: u64, _note: Option<i32>| -> u16 {
        calls += 1;
        0
    };
    assert!(r.render_buffer(&mut buffer, &mut synth));
    assert_eq!(calls, 0);
    assert_eq!(r.frame_index(), 0);
}

#[test]
fn frame_clock_has_no_gap_across_buffers() {
    let mut r = Renderer::new(48000, 2);
    let mut seen: Vec<u64> = Vec::new();
    for len in [4usize, 6, 2, 10, 8] {
        let mut buffer = vec![0u64; len];
        let mut synth = |frame: u64, _note: Option<i32>| -> u64 {
            seen.push(frame);
            frame
        };
        assert!(r.render_buffer(&mut buffer, &mut synth));
    }
    let expected: Vec<u64> = (0..15).collect();
    assert_eq!(seen, expected);
    assert_eq!(r.frame_index(), 15);
    let rate = r.sample_rate() as f64;
    let summed: f64 = seen.iter().map(|_| 1.0 / rate).sum();
    assert!((summed - 15.0 / rate).abs() < 1e-12);
}

#[test]
fn note_follows_press_and_release_between_buffers() {
    let mut r = Renderer::new(44100, 1);
    let mut notes: Vec<Option<i32>> = Vec::new();
    assert_eq!(r.apply_key_actions(&vec![KeyAction::press(60)]), Some(60));
    {
        let mut buffer = [0u8; 3];
        let mut synth = |_frame: u64, note: Option<i32>| -> u8 {
            notes.push(note);
            1
        };
        assert!(r.render_buffer(&mut buffer, &mut synth));
    }
    assert_eq!(r.apply_key_actions(&vec![KeyAction::release(60)]), None);
    {
        let mut buffer = [0u8; 2];
        let mut synth = |_frame: u64, note: Option<i32>| -> u8 {
            notes.push(note);
            0
        };
        assert!(r.render_buffer(&mut buffer, &mut synth));
    }
    assert_eq!(notes, vec![Some(60), Some(60), Some(60), None, None]);
}

