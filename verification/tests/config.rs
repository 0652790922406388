use rust9cc::config::Config;

fn args(words: &[&str]) -> Vec<String> {
    words.iter().map(|w| w.to_string()).collect()
}

#[test]
fn both_paths_have_defaults() {
    let config = Config::new(args(&["prog"]));
    assert_eq!(config.entry, "tmp.c");
    assert_eq!(config.dist, "tmp.s");
    let config = Config::new(args(&[]));
    assert_eq!(config.entry, "tmp.c");
    assert_eq!(config.dist, "tmp.s");
}

#[test]
fn the_source_path_comes_first() {
    let config = Config::new(args(&["prog", "in.c"]));
    assert_eq!(config.entry, "in.c");
    assert_eq!(config.dist, "tmp.s");
}

#[test]
fn the_output_path_comes_second() {
    let config = Config::new(args(&["prog", "in.c", "out.s", "more"]));
    assert_eq!(config.entry, "in.c");
    assert_eq!(config.dist, "out.s");
}
