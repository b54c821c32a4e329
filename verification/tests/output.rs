use chime::output::{OutputConfig, PlaybackCursor};

#[test]
fn default_output_config() {
    let c = OutputConfig::default();
    assert_eq!(c.sample_rate, 44100);
    assert_eq!(c.channels, 2);
    assert_eq!(c.buffer_size, 4096);
}

#[test]
fn cursor_hands_out_loaded_samples_while_playing() {
    let mut c = PlaybackCursor::new();
    assert!(c.is_finished());
    c.load(10);
    assert!(!c.is_finished());
    let f = c.fill(4);
    assert_eq!((f.start, f.count), (0, 0));
    c.play();
    let f = c.fill(4);
    assert_eq!((f.start, f.count), (0, 4));
    let f = c.fill(8);
    assert_eq!((f.start, f.count), (4, 6));
    assert_eq!(c.position(), 10);
    assert!(!c.is_finished());
    let f = c.fill(8);
    assert_eq!((f.start, f.count), (10, 0));
    c.pause();
    assert!(c.is_finished());
    c.stop();
    assert_eq!(c.position(), 0);
    assert!(!c.is_finished());
}

#[test]
fn load_rewinds() {
    let mut c = PlaybackCursor::new();
    c.load(5);
    c.play();
    c.fill(3);
    c.load(2);
    assert_eq!(c.position(), 0);
    let f = c.fill(5);
    assert_eq!((f.start, f.count), (0, 2));
}
