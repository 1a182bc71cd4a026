use epic_drawing_backend::config::{find_image_index, validate_images, ConfigError, ImageEntry};
use epic_drawing_backend::fourier::{coefficient_limit, frequency_index, harmonics_kept};
use epic_drawing_backend::observer::{component_color, decimal_string, FileObserver, NoOpObserver};
use std::path::PathBuf;

fn entry(name: &str, num_points_sample: usize, target_size_positive: bool) -> ImageEntry {
    ImageEntry {
        name: name.to_string(),
        num_points_sample,
        target_size_positive,
        invert: None,
        closing_iterations: None,
        min_component_points: None,
        max_components: None,
        max_bridges: None,
    }
}

#[test]
fn valid_images_pass() {
    let entries = vec![entry("a", 10, true), entry("b", 1, true)];
    assert!(validate_images(&entries).is_ok());
    assert!(validate_images(&vec![]).is_ok());
}

#[test]
fn duplicate_name_is_reported() {
    let entries = vec![entry("a", 10, true), entry("b", 5, true), entry("a", 3, true)];
    match validate_images(&entries) {
        Err(ConfigError::DuplicateName(name)) => assert_eq!(name, "a"),
        other => panic!("unexpected: {:?}", other),
    }
}

#[test]
fn zero_sample_points_is_invalid() {
    let entries = vec![entry("a", 10, true), entry("b", 0, true)];
    match validate_images(&entries) {
        Err(ConfigError::InvalidValue(msg)) => {
            assert_eq!(msg, "num_points must be > 0 for image 'b'")
        }
        other => panic!("unexpected: {:?}", other),
    }
}

#[test]
fn non_positive_target_size_is_invalid() {
    let entries = vec![entry("c", 10, false)];
    match validate_images(&entries) {
        Err(ConfigError::InvalidValue(msg)) => {
            assert_eq!(msg, "target_size must be > 0.0 for image 'c'")
        }
        other => panic!("unexpected: {:?}", other),
    }
}

#[test]
fn first_problem_wins() {
    let entries = vec![entry("a", 0, false), entry("a", 0, false)];
    match validate_images(&entries) {
        Err(ConfigError::InvalidValue(msg)) => {
            assert_eq!(msg, "num_points must be > 0 for image 'a'")
        }
        other => panic!("unexpected: {:?}", other),
    }
}

#[test]
fn image_found_by_name() {
    let entries = vec![entry("cat", 1, true), entry("dog", 1, true), entry("cat", 2, true)];
    assert_eq!(find_image_index(&entries, "cat"), Some(0));
    assert_eq!(find_image_index(&entries, "dog"), Some(1));
    assert_eq!(find_image_index(&entries, "cow"), None);
}

#[test]
fn image_settings_defaults() {
    let plain = entry("a", 1, true);
    assert!(!plain.invert());
    assert_eq!(plain.closing_iterations(), 1);
    assert_eq!(plain.min_component_points(), 10);
    assert_eq!(plain.max_components(), 0);
    assert_eq!(plain.max_bridges(), 50);
    let set = ImageEntry {
        invert: Some(true),
        closing_iterations: Some(3),
        min_component_points: Some(4),
        max_components: Some(7),
        max_bridges: Some(0),
        ..entry("b", 1, true)
    };
    assert!(set.invert());
    assert_eq!(set.closing_iterations(), 3);
    assert_eq!(set.min_component_points(), 4);
    assert_eq!(set.max_components(), 7);
    assert_eq!(set.max_bridges(), 0);
}

#[test]
fn error_messages() {
    assert_eq!(
        ConfigError::ImageNotFound("x.png".to_string()).message(),
        "Image file not found: x.png"
    );
    assert_eq!(
        ConfigError::DuplicateName("a".to_string()).message(),
        "Duplicate image name: a"
    );
    assert_eq!(
        ConfigError::InvalidValue("bad".to_string()).message(),
        "Invalid configuration: bad"
    );
    let io = ConfigError::from(std::io::Error::new(std::io::ErrorKind::NotFound, "gone"));
    assert!(matches!(io, ConfigError::Io(_)));
    assert_eq!(io.message(), "Failed to read config file: gone");
    let parse_error = toml::from_str::<toml::Value>("= 1").unwrap_err();
    let parse = ConfigError::from(parse_error);
    assert!(matches!(parse, ConfigError::Parse(_)));
    assert!(parse.message().starts_with("Failed to parse TOML: "));
}

#[test]
fn frequencies_of_transform_bins() {
    assert_eq!(frequency_index(0, 8), 0);
    assert_eq!(frequency_index(1, 8), 1);
    assert_eq!(frequency_index(4, 8), 4);
    assert_eq!(frequency_index(5, 8), -3);
    assert_eq!(frequency_index(7, 8), -1);
    assert_eq!(frequency_index(2, 5), 2);
    assert_eq!(frequency_index(3, 5), -2);
    assert_eq!(frequency_index(0, 1), 0);
    for n in 1..20usize {
        for i in 0..n {
            assert_eq!(frequency_index(i, n) == 0, i == 0);
        }
    }
}

#[test]
fn kept_harmonics() {
    assert_eq!(harmonics_kept(None, 8), 7);
    assert_eq!(harmonics_kept(Some(0), 8), 0);
    assert_eq!(harmonics_kept(Some(1), 8), 0);
    assert_eq!(harmonics_kept(Some(3), 8), 2);
    assert_eq!(harmonics_kept(Some(100), 8), 7);
    assert_eq!(harmonics_kept(Some(5), 1), 0);
}

#[test]
fn coefficient_limits() {
    assert_eq!(coefficient_limit(0), None);
    assert_eq!(coefficient_limit(5), Some(5));
}

#[test]
fn decimal_notation() {
    assert_eq!(decimal_string(0), "0");
    assert_eq!(decimal_string(7), "7");
    assert_eq!(decimal_string(10), "10");
    assert_eq!(decimal_string(1234), "1234");
    assert_eq!(decimal_string(usize::MAX), usize::MAX.to_string());
}

#[test]
fn file_observer_names_steps_in_turn() {
    let mut observer = FileObserver::new(PathBuf::from("out"), "cat".to_string());
    assert_eq!(observer.steps_taken(), 0);
    assert_eq!(observer.output_dir(), &PathBuf::from("out"));
    assert_eq!(observer.next_file_name("edges"), "cat_1_edges.png");
    assert_eq!(observer.next_file_name("skeleton"), "cat_2_skeleton.png");
    assert_eq!(observer.steps_taken(), 2);
    let _quiet = NoOpObserver;
}

#[test]
fn component_colours_cycle() {
    assert_eq!(component_color(0), (255, 0, 0));
    assert_eq!(component_color(1), (0, 255, 0));
    assert_eq!(component_color(9), (255, 128, 128));
    assert_eq!(component_color(10), (255, 0, 0));
    assert_eq!(component_color(23), (255, 255, 0));
}

#[test]
fn frequencies_of_very_long_transforms() {
    let n: usize = (1usize << 32) + 10;
    assert_eq!(frequency_index(5, n), 5);
    assert_eq!(frequency_index((1usize << 32) + 5, n), -5);
}

#[test]
fn file_observer_numbers_every_call() {
    let mut observer = FileObserver::new(PathBuf::from("dir"), "img".to_string());
    for k in 1..=12usize {
        let name = observer.next_file_name("step");
        assert_eq!(name, format!("img_{}_step.png", k));
        assert_eq!(observer.steps_taken(), k);
    }
}
