use nexis_ml::cli::{
    cmd_env, cmd_export, cmd_new, cmd_train, created, env_value, positionals, protocol_flag, run,
    version_line, Command, Template, IMAGE_TOML, TABULAR_TOML,
};
use nexis_ml::protocol::{Emitter, Stream};

fn strings(list: &[&str]) -> Vec<String> {
    list.iter().map(|s| s.to_string()).collect()
}

fn refusal(args: &[&str]) -> String {
    match run(&strings(args)) {
        Command::Refuse { line } => line,
        _ => panic!("not refused"),
    }
}

#[test]
fn positionals_follow_the_command() {
    assert_eq!(positionals(&strings(&["--x", "new", "image", "--y", "d"]), "new"), vec!["image", "d"]);
    assert_eq!(positionals(&strings(&["new", "new"]), "new"), vec!["new"]);
    assert_eq!(positionals(&strings(&["my", "train", "x"]), "train"), vec!["x"]);
    assert_eq!(positionals(&strings(&["new", "-x", "-"]), "new"), vec!["-x", "-"]);
    assert_eq!(positionals(&strings(&["a", "b"]), "new"), Vec::<String>::new());
    assert_eq!(positionals(&Vec::new(), "new"), Vec::<String>::new());
}

#[test]
fn flags_stand_anywhere() {
    for args in [
        ["--nexis-protocol", "train", "d"],
        ["train", "--nexis-protocol", "d"],
        ["train", "d", "--nexis-protocol"],
    ] {
        let args = strings(&args);
        assert!(protocol_flag(&args));
        assert!(matches!(run(&args), Command::Train { dir } if dir == "d"));
    }
    assert!(!protocol_flag(&strings(&["train"])));
}

#[test]
fn the_version_comes_first() {
    assert!(matches!(run(&strings(&["train", "--version"])), Command::Version));
    assert_eq!(version_line(), "nexis-ml 0.5.2\n");
}

#[test]
fn commands_and_their_directories() {
    assert!(matches!(run(&strings(&["env"])), Command::Env));
    assert!(matches!(run(&strings(&["train"])), Command::Train { dir } if dir == "."));
    assert!(matches!(run(&strings(&["train", "a", "b"])), Command::Train { dir } if dir == "a"));
    assert!(matches!(
        run(&strings(&["new"])),
        Command::New { template: Template::Tabular, dir } if dir == "tabular"
    ));
    assert!(matches!(
        run(&strings(&["new", "image"])),
        Command::New { template: Template::Image, dir } if dir == "image"
    ));
    assert!(matches!(
        run(&strings(&["new", "image", "my-run"])),
        Command::New { template: Template::Image, dir } if dir == "my-run"
    ));
    assert!(matches!(
        run(&strings(&["export", "--onnx", "p"])),
        Command::Export { dir } if dir == "p"
    ));
    assert!(matches!(cmd_new(&strings(&["tabular", "t"])), Command::New { .. }));
    assert!(matches!(cmd_train(&Vec::new()), Command::Train { dir } if dir == "."));
    assert!(matches!(
        cmd_export(&strings(&["--onnx"]), &Vec::new()),
        Command::Export { dir } if dir == "."
    ));
}

#[test]
fn what_cannot_be_done_is_refused() {
    assert_eq!(refusal(&[]), "usage: nexis-ml [--version] <env|new|train|export> [dir]\n");
    assert_eq!(refusal(&["--flag"]), "usage: nexis-ml [--version] <env|new|train|export> [dir]\n");
    assert_eq!(refusal(&["fly"]), "error: unknown command: fly\n");
    assert_eq!(
        refusal(&["new", "textgen"]),
        "error: unknown template 'textgen' (this engine supports: tabular, image)\n"
    );
    assert_eq!(
        refusal(&["export", "d"]),
        "error: export requires --onnx (the only supported format)\n"
    );
}

#[test]
fn the_report_is_one_line_of_json() {
    let line = cmd_env(true);
    assert!(line.ends_with('\n') && line.matches('\n').count() == 1);
    let report: serde_json::Value = serde_json::from_str(&line).unwrap();
    assert_eq!(report, env_value(true));
    let expected = "{\"engine\":\"nexis-ml-rs\",\"nexisMl\":\"0.5.2\",\"python\":null,\"torch\":null,\
                    \"cudaAvailable\":false,\"gpuName\":null,\"backend\":\"wgpu\"}";
    assert_eq!(report, serde_json::from_str::<serde_json::Value>(expected).unwrap());
    assert_eq!(env_value(false)["backend"], "cpu");
}

#[test]
fn templates_are_configurations() {
    let tabular: toml::Table = TABULAR_TOML.parse().unwrap();
    assert_eq!(tabular["train"]["epochs"].as_integer(), Some(20));
    assert_eq!(tabular["train"]["device"].as_str(), Some("auto"));
    assert_eq!(tabular["train"]["lr"].as_float(), Some(0.2));
    assert!(tabular.get("data").is_none());
    let image: toml::Table = IMAGE_TOML.parse().unwrap();
    assert_eq!(image["data"]["path"].as_str(), Some("data"));
    assert_eq!(image["model"]["hidden"].as_integer(), Some(64));
    assert_eq!(Template::Tabular.toml(), TABULAR_TOML);
    assert_eq!(Template::Image.toml(), IMAGE_TOML);
    assert_eq!((Template::Tabular.name(), Template::Image.name()), ("tabular", "image"));
}

#[test]
fn a_new_project_is_announced() {
    assert_eq!(
        created(Template::Image, "d", &Emitter::new(false)),
        (
            Stream::Stdout,
            "created image project at d\nnext:\n  cd d\n  nexis-ml train\n".to_string()
        )
    );
    assert_eq!(
        created(Template::Tabular, "d", &Emitter::new(true)),
        (Stream::Stderr, "created tabular project at d\n".to_string())
    );
}
