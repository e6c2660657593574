//! Configuration files.
use jog::config::{
    check_images, config_candidates, config_directories, config_directory, init_config,
    load_config, ConfigPlace, Environment, LoadedConfig, RawImage, RawPart, CONFIG_FILE,
    CONFIG_TEMPLATE,
};
use jog::error::AppError;
use jog::image::ImageFile;
use jog::walk::{Op, Reply, Stop, Walk};
use std::path::{Path, PathBuf};

fn environment(xdg: Option<&str>, home: Option<&str>, appdata: Option<&str>, windows: bool) -> Environment {
    Environment {
        xdg: xdg.map(str::to_owned),
        home: home.map(str::to_owned),
        appdata: appdata.map(str::to_owned),
        windows,
    }
}

/// The paths of the candidates.
fn candidate_paths(
    explicit: Option<&Path>,
    current_dir: &Path,
    executable: &Path,
    environment: &Environment,
) -> Vec<PathBuf> {
    let base = |value: &Option<String>| PathBuf::from(value.clone().unwrap());
    let path_of = |place: ConfigPlace| {
        let mut path = match place {
            ConfigPlace::Explicit => return explicit.unwrap().to_owned(),
            ConfigPlace::CurrentDirectory => current_dir.to_owned(),
            ConfigPlace::BesideExecutable => executable.parent().unwrap().to_owned(),
            ConfigPlace::Xdg => base(&environment.xdg),
            ConfigPlace::AppData => base(&environment.appdata),
            ConfigPlace::Home => base(&environment.home),
        };
        path.extend(config_directories(place));
        path.join(CONFIG_FILE)
    };
    let beside = executable.parent().is_some();
    candidates(explicit.is_some(), beside, environment, |a, b| {
        path_of(a) == path_of(b)
    })
    .into_iter()
    .map(path_of)
    .collect()
}

/// The candidates, where `same` tells which places have the same path.
fn candidates(
    explicit: bool,
    beside: bool,
    environment: &Environment,
    same: impl Fn(ConfigPlace, ConfigPlace) -> bool,
) -> Vec<ConfigPlace> {
    let mut replies = Vec::new();
    loop {
        match config_candidates(&mut Walk::new(&replies), explicit, beside, environment) {
            Ok(places) => return places,
            Err(Stop::Ask(Op::SamePath(a, b))) => replies.push(Reply::Flag(same(a, b))),
            other => panic!("{other:?}"),
        }
    }
}

#[test]
fn a_path_is_not_looked_for_twice_in_a_row() {
    let all = environment(Some("/home/user/.config"), Some("/home/user"), None, false);
    assert_eq!(
        candidate_paths(None, Path::new("/opt/jog"), Path::new("/opt//jog/jog"), &all),
        vec![
            PathBuf::from("/opt/jog/jog.toml"),
            PathBuf::from("/home/user/.config/jog/jog.toml"),
        ]
    );
    assert_eq!(
        candidates(false, true, &all, |_, _| true),
        [ConfigPlace::CurrentDirectory]
    );
    // A path that comes back behind another one is kept.
    assert_eq!(
        candidate_paths(
            None,
            Path::new("/home/user/.config/jog"),
            Path::new("/opt/jog/jog"),
            &environment(None, Some("/home/user"), None, false),
        ),
        vec![
            PathBuf::from("/home/user/.config/jog/jog.toml"),
            PathBuf::from("/opt/jog/jog.toml"),
            PathBuf::from("/home/user/.config/jog/jog.toml"),
        ]
    );
}

#[test]
fn discovers_project_then_sidecar_then_platform_config() {
    let paths = candidate_paths(
        None,
        Path::new("/project"),
        Path::new("/opt/jog/jog"),
        &environment(Some("/xdg"), Some("/home/user"), Some("C:\\AppData"), false),
    );
    assert_eq!(
        paths,
        vec![
            PathBuf::from("/project/jog.toml"),
            PathBuf::from("/opt/jog/jog.toml"),
            PathBuf::from("/xdg/jog/jog.toml"),
            PathBuf::from("/home/user/.config/jog/jog.toml")
        ]
    );
    let explicit = candidate_paths(
        Some(Path::new("chosen.toml")),
        Path::new("/project"),
        Path::new("/opt/jog/jog"),
        &environment(None, None, None, false),
    );
    assert_eq!(explicit, vec![PathBuf::from("chosen.toml")]);
}

#[test]
fn flash_uses_xdg_then_windows_appdata() {
    let paths = candidate_paths(
        None,
        Path::new("/project"),
        Path::new("/portable/jog.exe"),
        &environment(
            Some("/xdg"),
            Some("C:\\Users\\u"),
            Some("C:\\Users\\u\\AppData\\Roaming"),
            true,
        ),
    );
    assert_eq!(paths[0], PathBuf::from("/project/jog.toml"));
    assert_eq!(paths[1], PathBuf::from("/portable/jog.toml"));
    assert_eq!(paths[2], PathBuf::from("/xdg/jog/jog.toml"));
    assert!(paths[3].ends_with(Path::new("jog/jog.toml")));
}

#[test]
fn empty_variables_count_as_unset() {
    let unset = environment(Some(""), Some(""), Some(""), false);
    assert_eq!(
        candidates(false, false, &unset, |_, _| false),
        [ConfigPlace::CurrentDirectory]
    );
    match config_directory(&unset) {
        Err(AppError::Usage(message)) => {
            assert_eq!(message, "cannot locate the user configuration directory")
        }
        other => panic!("{other:?}"),
    }
    assert!(config_directory(&environment(None, Some("/h"), None, true)).is_err());
    assert!(config_directory(&environment(None, None, Some("/a"), false)).is_err());
}

#[test]
fn user_configuration_is_among_the_candidates() {
    for environment in [
        environment(Some("/x"), Some("/h"), Some("/a"), false),
        environment(Some("/x"), Some("/h"), Some("/a"), true),
        environment(None, Some("/h"), Some("/a"), false),
        environment(None, Some("/h"), Some("/a"), true),
    ] {
        let place = config_directory(&environment).unwrap();
        for beside in [false, true] {
            let places = candidates(false, beside, &environment, |_, _| false);
            assert_eq!(places[0], ConfigPlace::CurrentDirectory);
            assert_eq!(places.contains(&ConfigPlace::BesideExecutable), beside);
            assert!(places.contains(&place));
        }
    }
}

fn part(path: &str, addr: Option<u64>, joined: &str) -> RawPart {
    RawPart {
        file: ImageFile {
            path: path.to_owned(),
            extension: Path::new(path)
                .extension()
                .map(|extension| extension.to_str().unwrap().to_owned()),
        },
        addr,
        relative: Path::new(path).is_relative(),
        joined: joined.to_owned(),
    }
}

fn image(name: &str, parts: Vec<RawPart>) -> RawImage {
    RawImage {
        name: name.to_owned(),
        description: None,
        parts,
    }
}

/// Loads the configuration file `path`, which holds `images`.
fn parse_config_file(path: &str, text: &str, images: Vec<RawImage>) -> Result<LoadedConfig, Stop> {
    let replies = [
        Reply::Flag(true),
        Reply::Done,
        Reply::Environment(environment(None, None, None, false)),
        Reply::Found(Some(path.to_owned())),
        Reply::Text(text.to_owned()),
        Reply::Images(images),
    ];
    let explicit = Some(path.to_owned());
    match load_config(&mut Walk::new(&replies[..5]), &explicit) {
        Err(Stop::Ask(Op::ParseConfig(ConfigPlace::Explicit, toml))) => assert_eq!(toml, text),
        other => panic!("{other:?}"),
    }
    load_config(&mut Walk::new(&replies), &explicit)
}

#[test]
fn flash_parses_config_and_resolves_relative_files() {
    let config = parse_config_file(
        "/dir/jog.toml",
        "[images.app]\nparts = [{ file = 'build/app.bin', addr = 0x400000 }]\n",
        vec![image(
            "app",
            vec![part("build/app.bin", Some(0x400000), "/dir/build/app.bin")],
        )],
    )
    .unwrap();
    assert_eq!(config.path.as_deref(), Some("/dir/jog.toml"));
    assert_eq!(config.images[0].name, "app");
    assert_eq!(config.images[0].parts[0].file.path, "/dir/build/app.bin");
}

#[test]
fn main_parses_config_and_resolves_relative_files() {
    let config = parse_config_file(
        "/dir/sam4e.toml",
        "[images.app]\nparts = [{ file = 'build/app.bin', addr = 0x400000 }]\n",
        vec![image(
            "app",
            vec![part("build/app.bin", Some(0x400000), "/dir/build/app.bin")],
        )],
    )
    .unwrap();
    assert_eq!(config.images[0].name, "app");
    assert_eq!(config.images[0].parts[0].file.path, "/dir/build/app.bin");
}

#[test]
fn flash_rejects_invalid_config_shape() {
    assert!(parse_config_file(
        "/dir/jog.toml",
        "[images.app]\nparts = []\n",
        vec![image("app", vec![])],
    )
    .is_err());
    assert!(parse_config_file(
        "/dir/jog.toml",
        "[images.app]\nparts = [{ file = 'app.elf', addr = 1 }]\n",
        vec![image("app", vec![part("app.elf", Some(1), "/dir/app.elf")])],
    )
    .is_err());
}

#[test]
fn main_rejects_invalid_config_shape() {
    assert!(parse_config_file(
        "/dir/sam4e.toml",
        "[images.app]\nparts = []\n",
        vec![image("app", vec![])],
    )
    .is_err());
    assert!(parse_config_file(
        "/dir/sam4e.toml",
        "[images.app]\nparts = [{ file = 'app.elf', addr = 1 }]\n",
        vec![image("app", vec![part("app.elf", Some(1), "/dir/app.elf")])],
    )
    .is_err());
}

#[test]
fn accepts_named_elf_without_address() {
    let config = parse_config_file(
        "/dir/jog.toml",
        "[images.app]\nparts = [{ file = 'app.elf' }]\n",
        vec![image("app", vec![part("app.elf", None, "/dir/app.elf")])],
    )
    .unwrap();
    assert_eq!(config.images[0].name, "app");
    assert!(config.images[0].parts[0].addr.is_none());
}

fn usage_message<T: std::fmt::Debug>(result: Result<T, AppError>) -> String {
    match result {
        Err(AppError::Usage(message)) => message,
        other => panic!("{other:?}"),
    }
}

#[test]
fn images_are_checked_in_the_order_of_their_names() {
    let good = || vec![part("/x.bin", Some(0x10), "unused")];
    let images = check_images(&vec![
        image("b", good()),
        image("a", good()),
        image("ab", good()),
        image("é", good()),
        image("B", good()),
    ])
    .unwrap();
    let names: Vec<&str> = images.iter().map(|image| image.name.as_str()).collect();
    assert_eq!(names, ["B", "a", "ab", "b", "é"]);
    assert_eq!(images[0].parts[0].addr, Some(0x400010));
    assert_eq!(images[0].parts[0].file.path, "/x.bin");
    assert_eq!(images[0].parts[0].file.extension.as_deref(), Some("bin"));
    let message = usage_message(check_images(&vec![
        image("z", vec![]),
        image("y", vec![part("", None, "")]),
    ]));
    assert_eq!(message, "an image part in 'y' has no file");
}

#[test]
fn a_later_image_replaces_one_of_its_name() {
    let images = check_images(&vec![
        image("a", vec![part("/1.bin", Some(0), "")]),
        image("b", vec![part("/2.bin", Some(0), "")]),
        image("a", vec![part("/3.bin", Some(0), "")]),
    ])
    .unwrap();
    assert_eq!(images.len(), 2);
    assert_eq!(images[0].parts[0].file.path, "/3.bin");
    assert_eq!(images[1].parts[0].file.path, "/2.bin");
}

#[test]
fn names_each_fault_of_an_image() {
    let one = |name: &str, parts| usage_message(check_images(&vec![image(name, parts)]));
    assert_eq!(one(" \t", vec![]), "image names must not be empty");
    assert_eq!(one("app", vec![]), "image 'app' has no parts");
    assert_eq!(
        one("app", vec![part("a.bin", None, "")]),
        "raw .bin in image 'app' requires an address"
    );
    assert_eq!(
        one("app", vec![part("a.s19", None, "")]),
        "self-addressed image a.s19 cannot be validated before erase; use a raw .bin with an address"
    );
}

#[test]
fn the_first_file_that_is_found_is_used() {
    let start = || {
        vec![
            Reply::Flag(true),
            Reply::Done,
            Reply::Environment(environment(Some("/x"), Some("/h"), None, false)),
        ]
    };
    let mut replies = start();
    for (a, b) in [
        (ConfigPlace::CurrentDirectory, ConfigPlace::BesideExecutable),
        (ConfigPlace::BesideExecutable, ConfigPlace::Xdg),
        (ConfigPlace::Xdg, ConfigPlace::Home),
    ] {
        match load_config(&mut Walk::new(&replies), &None) {
            Err(Stop::Ask(Op::SamePath(x, y))) => assert_eq!((x, y), (a, b)),
            other => panic!("{other:?}"),
        }
        replies.push(Reply::Flag(false));
    }
    for place in [
        ConfigPlace::CurrentDirectory,
        ConfigPlace::BesideExecutable,
        ConfigPlace::Xdg,
        ConfigPlace::Home,
    ] {
        match load_config(&mut Walk::new(&replies), &None) {
            Err(Stop::Ask(Op::FindConfig(asked))) => assert_eq!(asked, place),
            other => panic!("{other:?}"),
        }
        replies.push(Reply::Found(Some("/found/jog.toml".into())));
        match load_config(&mut Walk::new(&replies), &None) {
            Err(Stop::Ask(Op::ReadConfig(asked))) => assert_eq!(asked, place),
            other => panic!("{other:?}"),
        }
        replies.pop();
        replies.push(Reply::Found(None));
    }
    let config = load_config(&mut Walk::new(&replies), &None).unwrap();
    assert!(config.path.is_none());
    assert!(config.images.is_empty());
    let mut replies = start();
    replies.push(Reply::Found(None));
    match load_config(&mut Walk::new(&replies), &Some("absent.toml".into())) {
        Err(Stop::Fail(AppError::Usage(message))) => {
            assert_eq!(message, "configuration file does not exist: absent.toml")
        }
        other => panic!("{other:?}"),
    }
}

#[test]
fn names_what_is_wrong_with_a_configuration_file() {
    let explicit = Some("c.toml".to_owned());
    let message = |last: Vec<Reply>| {
        let mut replies = vec![
            Reply::Flag(true),
            Reply::Done,
            Reply::Environment(environment(None, None, None, false)),
            Reply::Found(Some("c.toml".into())),
        ];
        replies.extend(last);
        match load_config(&mut Walk::new(&replies), &explicit) {
            Err(Stop::Fail(AppError::Usage(message))) => message,
            other => panic!("{other:?}"),
        }
    };
    assert_eq!(
        message(vec![Reply::Failed("denied".into())]),
        "cannot read c.toml: denied"
    );
    assert_eq!(
        message(vec![Reply::Text("x".into()), Reply::Failed("unknown field".into())]),
        "cannot parse c.toml: unknown field"
    );
    assert_eq!(
        message(vec![
            Reply::Text("x".into()),
            Reply::Failed("missing Escape".into())
        ]),
        "cannot parse c.toml: missing Escape; use single quotes for Windows paths"
    );
    match load_config(&mut Walk::new(&[Reply::Failed("gone".into())]), &None) {
        Err(Stop::Fail(AppError::Usage(message))) => {
            assert_eq!(message, "cannot locate the jog executable: gone")
        }
        other => panic!("{other:?}"),
    }
    let replies = [Reply::Flag(true), Reply::Failed("gone".into())];
    match load_config(&mut Walk::new(&replies), &None) {
        Err(Stop::Fail(AppError::Usage(message))) => {
            assert_eq!(message, "cannot locate the current directory: gone")
        }
        other => panic!("{other:?}"),
    }
}

#[test]
fn a_new_configuration_file_has_only_comments() {
    assert!(CONFIG_TEMPLATE.contains("[images."));
    assert!(CONFIG_TEMPLATE
        .lines()
        .all(|line| line.trim().is_empty() || line.trim_start().starts_with('#')));
}

#[test]
fn an_existing_configuration_file_is_left_alone() {
    let replies = [
        Reply::Text("nested/jog.toml".into()),
        Reply::Found(Some("nested".into())),
        Reply::Done,
        Reply::Exists,
    ];
    match init_config(&mut Walk::new(&replies), true) {
        Err(Stop::Fail(AppError::Usage(message))) => assert_eq!(
            message,
            "configuration file already exists: nested/jog.toml"
        ),
        other => panic!("{other:?}"),
    }
}

#[test]
fn a_new_configuration_file_is_created_in_the_user_directory() {
    let mut replies = Vec::new();
    let mut asked = Vec::new();
    loop {
        let op = match init_config(&mut Walk::new(&replies), false) {
            Err(Stop::Ask(op)) => op,
            Ok(path) => {
                assert_eq!(path, "/xdg/jog/jog.toml");
                break;
            }
            Err(other) => panic!("{other:?}"),
        };
        replies.push(match &op {
            Op::ReadEnvironment => Reply::Environment(environment(Some("/xdg"), None, None, false)),
            Op::ShowConfig(ConfigPlace::Xdg) => Reply::Text("/xdg/jog/jog.toml".into()),
            Op::ShowParent(ConfigPlace::Xdg) => Reply::Found(Some("/xdg/jog".into())),
            Op::CreateParent(ConfigPlace::Xdg) | Op::CreateConfig(ConfigPlace::Xdg) => Reply::Done,
            Op::WriteConfig(ConfigPlace::Xdg, text) => {
                assert_eq!(text, CONFIG_TEMPLATE);
                Reply::Done
            }
            other => panic!("{other:?}"),
        });
        asked.push(op);
    }
    assert_eq!(asked.len(), 6);
}

#[test]
fn names_what_keeps_a_configuration_file_from_being_created() {
    let message = |replies: &[Reply]| match init_config(&mut Walk::new(replies), true) {
        Err(Stop::Fail(AppError::Runtime(message))) => message,
        other => panic!("{other:?}"),
    };
    let shown = || Reply::Text("d/c.toml".into());
    assert_eq!(
        message(&[
            shown(),
            Reply::Found(Some("d".into())),
            Reply::Failed("denied".into())
        ]),
        "cannot create d: denied"
    );
    assert_eq!(
        message(&[shown(), Reply::Found(None), Reply::Failed("denied".into())]),
        "cannot create d/c.toml: denied"
    );
    assert_eq!(
        message(&[
            shown(),
            Reply::Found(None),
            Reply::Done,
            Reply::Failed("full".into())
        ]),
        "cannot write d/c.toml: full"
    );
}
