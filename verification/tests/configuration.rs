use steelwool::config::{ConfigError, Layers, Passes, TomlValue};
use steelwool::Config;

fn resolved(layers: &Layers) -> Config {
    layers.resolve().expect("the layers are valid")
}

#[test]
fn no_layers_give_the_pedantic_defaults() {
    let config = resolved(&Layers::new());
    assert_eq!(config, Config::default());
    assert_eq!(config.width, 80);
    assert_eq!(config.passes, Passes::default());
    assert!(config.passes.sort_provide && config.passes.comment_style);
}

#[test]
fn a_toml_layer_sets_the_width_and_the_passes() {
    let mut layers = Layers::new();
    layers
        .push_toml("width = 30\n[passes]\nblank-lines = false\nsort-provide = false\n", "steelwool.toml")
        .expect("parses");
    let config = resolved(&layers);
    assert_eq!(config.width, 30);
    assert!(!config.passes.blank_lines);
    assert!(!config.passes.sort_provide);
    assert!(config.passes.sort_require);
}

#[test]
fn a_set_takes_precedence_over_an_earlier_layer() {
    let mut layers = Layers::new();
    layers.push_toml("width = 200", "--config-toml").expect("parses");
    layers.push_set("width=20").expect("parses");
    assert_eq!(resolved(&layers).width, 20);
}

#[test]
fn a_pushed_table_is_merged_like_a_parsed_one() {
    let mut layers = Layers::new();
    layers.push_toml("width = 60\n[passes]\nblank-lines = false", "steelwool.toml").expect("parses");
    let passes = vec![("quote-sugar".to_string(), TomlValue::Boolean(false))];
    layers.push_table(
        vec![("passes".to_string(), TomlValue::Table(passes)), ("width".to_string(), TomlValue::Integer(40))],
        "pushed",
    );
    let config = resolved(&layers);
    assert_eq!(config.width, 40);
    assert!(!config.passes.blank_lines);
    assert!(!config.passes.quote_sugar);
    assert!(config.passes.sort_require);
    layers.push_table(vec![("indent".to_string(), TomlValue::Integer(4))], "pushed");
    assert_eq!(
        layers.resolve(),
        Err(ConfigError::UnknownKey { origin: "pushed".to_string(), key: "indent".to_string() })
    );
}

#[test]
fn tables_of_later_layers_merge_into_earlier_ones() {
    let mut layers = Layers::new();
    layers.push_toml("[passes]\nblank-lines = false", "first").expect("parses");
    layers.push_toml("[passes]\nsort-require = false", "second").expect("parses");
    let config = resolved(&layers);
    assert!(!config.passes.blank_lines);
    assert!(!config.passes.sort_require);
    assert!(config.passes.quote_sugar);
}

#[test]
fn a_dotted_set_reaches_into_a_table() {
    let mut layers = Layers::new();
    layers.push_set(" passes.quote-sugar = false").expect("parses");
    assert!(!resolved(&layers).passes.quote_sugar);
}

#[test]
fn an_unknown_key_is_rejected_naming_the_last_layer() {
    let mut layers = Layers::new();
    layers.push_toml("indent = 4", "--config-toml").expect("parses");
    let error = layers.resolve().expect_err("unknown key");
    assert_eq!(
        error,
        ConfigError::UnknownKey { origin: "--config-toml".to_string(), key: "indent".to_string() }
    );
    assert_eq!(error.message(), "--config-toml: unknown configuration key `indent`");
}

#[test]
fn an_unknown_pass_is_rejected_with_its_dotted_name() {
    let mut layers = Layers::new();
    layers.push_set("passes.nonsense=true").expect("parses");
    let error = layers.resolve().expect_err("unknown pass");
    assert_eq!(
        error,
        ConfigError::UnknownKey {
            origin: "--set passes.nonsense=true".to_string(),
            key: "passes.nonsense".to_string()
        }
    );
}

#[test]
fn the_first_unknown_key_in_key_order_is_reported() {
    let mut layers = Layers::new();
    layers.push_toml("zeta = 1\nalpha = 2", "x").expect("parses");
    assert_eq!(
        layers.resolve(),
        Err(ConfigError::UnknownKey { origin: "x".to_string(), key: "alpha".to_string() })
    );
}

#[test]
fn a_malformed_set_is_rejected() {
    let mut layers = Layers::new();
    let error = layers.push_set("width").expect_err("no value");
    assert_eq!(error, ConfigError::BadSet { argument: "width".to_string() });
    assert!(error.message().starts_with("--set expects"));
    assert_eq!(
        layers.push_set("=3"),
        Err(ConfigError::BadSet { argument: "=3".to_string() })
    );
    assert_eq!(
        layers.push_set("width=not toml"),
        Err(ConfigError::BadSet { argument: "width=not toml".to_string() })
    );
    assert_eq!(resolved(&layers), Config::default());
}

#[test]
fn values_of_the_wrong_type_are_rejected() {
    let mut layers = Layers::new();
    layers.push_toml("width = \"wide\"", "w").expect("parses");
    assert_eq!(
        layers.resolve(),
        Err(ConfigError::WrongType {
            origin: "w".to_string(),
            key: "width".to_string(),
            expected: "an integer".to_string()
        })
    );

    let mut layers = Layers::new();
    layers.push_toml("[passes]\nblank-lines = 1", "b").expect("parses");
    let error = layers.resolve().expect_err("not a boolean");
    assert_eq!(error.message(), "b: `blank-lines` must be a boolean");

    let mut layers = Layers::new();
    layers.push_toml("passes = 1", "p").expect("parses");
    assert_eq!(
        layers.resolve(),
        Err(ConfigError::NotATable { origin: "p".to_string(), key: "passes".to_string() })
    );
}

#[test]
fn a_width_below_one_is_rejected() {
    let mut layers = Layers::new();
    layers.push_toml("width = 0", "w").expect("parses");
    let error = layers.resolve().expect_err("too narrow");
    assert_eq!(error, ConfigError::BadWidth { origin: "w".to_string(), width: 0 });
    assert_eq!(error.message(), "w: `width` must be at least 1, got 0");

    let mut layers = Layers::new();
    layers.push_toml("width = -3", "w").expect("parses");
    assert_eq!(
        layers.resolve().expect_err("negative").message(),
        "w: `width` must be at least 1, got -3"
    );
}

#[test]
fn a_syntax_error_names_its_origin_and_changes_nothing() {
    let mut layers = Layers::new();
    layers.push_toml("width = 30", "first").expect("parses");
    let error = layers.push_toml("width = ", "broken").expect_err("not toml");
    assert!(matches!(&error, ConfigError::Syntax { origin, .. } if origin == "broken"));
    assert!(error.message().starts_with("broken: "));
    assert_eq!(resolved(&layers).width, 30);
}

#[test]
fn an_unreadable_file_says_which() {
    let error = ConfigError::Unreadable {
        path: "steelwool.toml".to_string(),
        message: "denied".to_string(),
    };
    assert_eq!(error.message(), "steelwool.toml: denied");
}

use steelwool::cli::{resolve_layers, Overlay};
use steelwool::config::{discover, discovery_candidates};

fn strings(items: &[&str]) -> Vec<String> {
    items.iter().map(|item| item.to_string()).collect()
}

#[test]
fn discovery_looks_upward_to_the_repository_root_then_at_the_user_config() {
    let candidates = discovery_candidates(
        &strings(&["/work/repo/src", "/work/repo", "/work", "/"]),
        &vec![false, true, false, false],
        Some("/xdg".to_string()),
        Some("/home/me".to_string()),
    );
    assert_eq!(
        candidates,
        strings(&[
            "/work/repo/src/steelwool.toml",
            "/work/repo/src/.steelwool.toml",
            "/work/repo/steelwool.toml",
            "/work/repo/.steelwool.toml",
            "/xdg/steelwool/steelwool.toml",
        ])
    );
}

#[test]
fn discovery_falls_back_to_home_and_handles_relative_directories() {
    let candidates = discovery_candidates(
        &strings(&["nested", ""]),
        &vec![false, false],
        Some(String::new()),
        Some("/home/me/".to_string()),
    );
    assert_eq!(
        candidates,
        strings(&[
            "nested/steelwool.toml",
            "nested/.steelwool.toml",
            "steelwool.toml",
            ".steelwool.toml",
            "/home/me/.config/steelwool/steelwool.toml",
        ])
    );
    assert_eq!(discovery_candidates(&vec![], &vec![], None, None), Vec::<String>::new());
}

#[test]
fn discovery_picks_the_nearest_candidate_that_is_a_file() {
    let dirs = strings(&["/work/repo/src", "/work/repo", "/work"]);
    let has_git = vec![false, true, false];
    let xdg = || Some("/xdg".to_string());
    let picked = discover(&dirs, &has_git, xdg(), None, &vec![false, false, false, true, true]);
    assert_eq!(picked, Some("/work/repo/.steelwool.toml".to_string()));
    let picked = discover(&dirs, &has_git, xdg(), None, &vec![false, false, false, false, true]);
    assert_eq!(picked, Some("/xdg/steelwool/steelwool.toml".to_string()));
    let picked = discover(&dirs, &has_git, xdg(), None, &vec![true, true, true, true, true]);
    assert_eq!(picked, Some("/work/repo/src/steelwool.toml".to_string()));
}

#[test]
fn discovery_finds_nothing_when_no_candidate_is_a_file() {
    let dirs = strings(&["/work"]);
    assert_eq!(discover(&dirs, &vec![true], None, None, &vec![false, false]), None);
    assert_eq!(discover(&dirs, &vec![true], None, Some("/home/me".to_string()), &vec![false, false]), None);
    assert_eq!(discover(&vec![], &vec![], None, None, &vec![]), None);
}

#[test]
fn layers_apply_file_then_overlays_in_order() {
    let file = Some(("width = 30\n[passes]\nblank-lines = false".to_string(), "steelwool.toml".to_string()));
    let overlays = vec![
        Overlay::Toml("width = 200".to_string()),
        Overlay::Override("width=20".to_string()),
    ];
    let config = resolve_layers(file, &overlays).expect("the layers are valid");
    assert_eq!(config.width, 20);
    assert!(!config.passes.blank_lines);
    assert_eq!(resolve_layers(None, &vec![]), Ok(Config::default()));
}

#[test]
fn the_first_bad_layer_stops_resolution() {
    let overlays = vec![Overlay::Override("width".to_string()), Overlay::Toml("indent = 4".to_string())];
    assert_eq!(
        resolve_layers(None, &overlays),
        Err(ConfigError::BadSet { argument: "width".to_string() })
    );
    let overlays = vec![Overlay::Toml("indent = 4".to_string())];
    assert_eq!(
        resolve_layers(None, &overlays),
        Err(ConfigError::UnknownKey { origin: "--config-toml".to_string(), key: "indent".to_string() })
    );
}
