use umber::broker::{Capability, Decision, PermissionBroker};
use umber::discovery::{discover, enabled_path, load_enabled, modules_dir, save_enabled, Discovered};
use umber::host::{HostError, ModuleHost};
use umber::manifest::{Manifest, ManifestError, ModuleKind, Permissions};
use umber::table::Table;

fn no_permissions() -> Permissions {
    Permissions { fs: Vec::new(), net: Vec::new(), programs: Vec::new() }
}

fn manifest(name: &str, kind: ModuleKind, entry: &str) -> Manifest {
    Manifest {
        name: name.to_string(),
        version: "0.1.0".to_string(),
        kind,
        entry: entry.to_string(),
        default_on: false,
        permissions: no_permissions(),
        ui_panels: Vec::new(),
        ui_commands: Vec::new(),
        ui_surfaces: Vec::new(),
        config: Table::new(),
    }
}

fn greeting() -> Vec<(String, String)> {
    vec![("hello.greet".to_string(), "Hello: Greet".to_string())]
}

const GOOD: &str = r#"
        [module]
        name = "hello-panel"
        version = "0.1.0"
        kind = "wasm"
        entry = "hello.wasm"
        default_on = true

        [permissions]
        fs = ["read:workspace", "write:tmp"]
        net = ["localhost"]
        exec = ["pi"]

        [ui]
        panels = ["hello"]
        commands = ["hello.open", "hello.close"]
        surfaces = ["tui", "plain"]

        [config]
        greeting = "hi there"
    "#;

#[test]
fn everything_is_denied_with_reason() {
    let broker = PermissionBroker::new(Permissions {
        fs: vec!["read:workspace".to_string()],
        ..no_permissions()
    });
    for cap in [
        Capability::FsRead("/etc/passwd".to_string()),
        Capability::FsWrite("/tmp/x".to_string()),
        Capability::Net("localhost".to_string()),
        Capability::Exec("pi".to_string()),
    ] {
        let d = broker.check(&cap);
        assert!(!d.is_granted());
        match d {
            Decision::Denied(reason) => assert!(reason.contains("denied")),
            Decision::Granted => panic!("nothing is ever granted"),
        }
    }
    assert_eq!(broker.requested().fs, vec!["read:workspace"]);
}

#[test]
fn parses_full_manifest() {
    let m = Manifest::parse(GOOD).unwrap();
    assert_eq!(m.name, "hello-panel");
    assert_eq!(m.version, "0.1.0");
    assert_eq!(m.kind, ModuleKind::Wasm);
    assert_eq!(m.entry, "hello.wasm");
    assert!(m.default_on);
    assert_eq!(m.permissions.fs, vec!["read:workspace", "write:tmp"]);
    assert_eq!(m.permissions.net, vec!["localhost"]);
    assert_eq!(m.permissions.programs, vec!["pi"]);
    assert_eq!(m.ui_commands, vec!["hello.open", "hello.close"]);
    assert_eq!(m.ui_surfaces, vec!["tui", "plain"]);
    assert_eq!(m.config.get("greeting").map(String::as_str), Some("hi there"));
}

#[test]
fn missing_required_field_is_error() {
    let text = "[module]\nname = \"x\"\nkind = \"lua\"\nentry = \"x.lua\"\n";
    assert_eq!(Manifest::parse(text), Err(ManifestError::MissingField("module.version")));
}

#[test]
fn unknown_kind_is_error() {
    let text = "[module]\nname=\"x\"\nversion=\"1\"\nkind=\"python\"\nentry=\"x.py\"\n";
    assert_eq!(Manifest::parse(text), Err(ManifestError::UnknownKind("python".to_string())));
}

#[test]
fn empty_permission_lists_default_empty() {
    let text = "[module]\nname=\"x\"\nversion=\"1\"\nkind=\"lua\"\nentry=\"x.lua\"\n";
    let m = Manifest::parse(text).unwrap();
    assert!(m.permissions.fs.is_empty());
    assert_eq!(m.permissions.summary(), "no perms");
    assert!(!m.default_on);
}

#[test]
fn comment_inside_quotes_is_kept() {
    let text =
        "[module]\nname=\"a#b\"\nversion=\"1\"\nkind=\"lua\"\nentry=\"x.lua\" # trailing\n";
    let m = Manifest::parse(text).unwrap();
    assert_eq!(m.name, "a#b");
    assert_eq!(m.entry, "x.lua");
}

#[test]
fn manifest_valid_parses_from_file() {
    let text = "[module]\nname = \"sample\"\nversion = \"0.2.0\"\nkind = \"wasm\"\nentry = \"hello.wat\"\ndefault_on = true\n\n[permissions]\nfs = [\"read:workspace\", \"write:tmp\"]\nnet = [\"localhost\"]\nexec = [\"pi\"]\n\n[ui]\ncommands = [\"hello.greet\"]\n\n[config]\ngreeting = \"howdy\"\n";
    let m = Manifest::parse(text).unwrap();
    assert_eq!(m.name, "sample");
    assert_eq!(m.version, "0.2.0");
    assert_eq!(m.kind, ModuleKind::Wasm);
    assert_eq!(m.entry, "hello.wat");
    assert!(m.default_on);
    assert_eq!(m.permissions.fs, vec!["read:workspace", "write:tmp"]);
    assert_eq!(m.permissions.net, vec!["localhost"]);
    assert_eq!(m.permissions.programs, vec!["pi"]);
    assert_eq!(m.permissions.summary(), "fs:2 net:1 exec:1");
    assert_eq!(m.ui_commands, vec!["hello.greet"]);
    assert_eq!(m.config.get("greeting").map(String::as_str), Some("howdy"));
}

#[test]
fn manifest_missing_required_field_errors() {
    let text = "[module]\nname = \"x\"\nkind = \"lua\"\nentry = \"x.lua\"\n";
    assert!(matches!(Manifest::parse(text), Err(ManifestError::MissingField("module.version"))));
}

#[test]
fn manifest_unknown_kind_errors() {
    let text = "[module]\nname=\"x\"\nversion=\"1\"\nkind=\"python\"\nentry=\"x.py\"\n";
    match Manifest::parse(text) {
        Err(ManifestError::UnknownKind(k)) => assert_eq!(k, "python"),
        other => panic!("expected UnknownKind, got {other:?}"),
    }
}

#[test]
fn manifest_empty_permission_lists_default_empty() {
    let text = "[module]\nname=\"x\"\nversion=\"1\"\nkind=\"lua\"\nentry=\"x.lua\"\n";
    let m = Manifest::parse(text).unwrap();
    assert!(m.permissions.fs.is_empty());
    assert!(m.permissions.net.is_empty());
    assert!(m.permissions.programs.is_empty());
    assert_eq!(m.permissions.summary(), "no perms");
}

#[test]
fn load_then_unload_deregisters_commands() {
    let mut host = ModuleHost::new();
    let commands =
        host.load(manifest("hello-wasm", ModuleKind::Wasm, "hello.wat"), greeting()).unwrap();
    assert_eq!(commands.len(), 1);
    assert_eq!(commands[0].id, "hello.greet");
    assert_eq!(commands[0].title, "Hello: Greet");
    assert!(host.is_loaded("hello-wasm"));
    assert_eq!(
        host.route("hello.greet").ok(),
        Some(("hello-wasm".to_string(), ModuleKind::Wasm))
    );

    let removed = host.unload("hello-wasm");
    assert_eq!(removed, vec!["hello.greet".to_string()]);
    assert!(!host.is_loaded("hello-wasm"));
    assert!(matches!(host.route("hello.greet"), Err(HostError::NoSuchCommand(_))));
    assert!(host.unload("never-loaded").is_empty());
}

#[test]
fn duplicate_load_is_rejected() {
    let mut host = ModuleHost::new();
    host.load(manifest("dup", ModuleKind::Wasm, "hello.wat"), greeting()).unwrap();
    let again = host.load(manifest("dup", ModuleKind::Wasm, "hello.wat"), greeting());
    assert!(matches!(again, Err(HostError::AlreadyLoaded(_))));
}

#[test]
fn a_shared_command_falls_back_to_the_other_module() {
    let mut host = ModuleHost::new();
    host.load(manifest("first", ModuleKind::Wasm, "a.wat"), greeting()).unwrap();
    let own = vec![
        ("hello.greet".to_string(), "Second: Greet".to_string()),
        ("second.own".to_string(), "Second: Own".to_string()),
    ];
    host.load(manifest("second", ModuleKind::Lua, "b.lua"), own).unwrap();
    assert_eq!(host.route("hello.greet").ok(), Some(("second".to_string(), ModuleKind::Lua)));
    let titles: Vec<String> = host.commands().into_iter().map(|c| c.title).collect();
    assert_eq!(titles, vec!["Hello: Greet", "Second: Greet", "Second: Own"]);

    assert_eq!(host.unload("second"), vec!["hello.greet".to_string(), "second.own".to_string()]);
    assert_eq!(host.route("hello.greet").ok(), Some(("first".to_string(), ModuleKind::Wasm)));
    assert!(matches!(host.route("second.own"), Err(HostError::NoSuchCommand(_))));
    assert_eq!(host.loaded(), vec!["first".to_string()]);
    let titles: Vec<String> = host.commands().into_iter().map(|c| c.title).collect();
    assert_eq!(titles, vec!["Hello: Greet"]);
}

#[test]
fn unloading_the_older_module_leaves_the_newer_its_commands() {
    let mut host = ModuleHost::new();
    host.load(manifest("first", ModuleKind::Wasm, "a.wat"), greeting()).unwrap();
    host.load(manifest("second", ModuleKind::Lua, "b.lua"), greeting()).unwrap();
    host.unload("first");
    assert_eq!(host.route("hello.greet").ok(), Some(("second".to_string(), ModuleKind::Lua)));
    assert!(host.is_loaded("second"));
}

#[test]
fn host_errors_say_what_went_wrong() {
    assert_eq!(HostError::NoSuchCommand("a.b".to_string()).message(), "no loaded module provides `a.b`");
    assert_eq!(
        HostError::AlreadyLoaded("m".to_string()).message(),
        "module `m` is already loaded"
    );
    assert_eq!(HostError::Timeout.message(), "invocation exceeded its time budget");
    assert_eq!(HostError::Load("x".to_string()).message(), "load failed: x");
    assert_eq!(HostError::Abi("x".to_string()).message(), "ABI error: x");
    assert_eq!(HostError::Invoke("x".to_string()).message(), "invocation failed: x");
    assert_eq!(HostError::Io("x".to_string()).message(), "cannot read module entry: x");
    assert_eq!(
        HostError::Manifest(ManifestError::MissingField("module.name")).message(),
        "missing required field `module.name`"
    );
}

#[test]
fn budgets_are_counted_in_whole_ticks() {
    assert_eq!(ModuleHost::with_budget(0).deadline_ticks(), 1);
    assert_eq!(ModuleHost::with_budget(0).budget(), 0);
    let one = ModuleHost::with_budget(1).deadline_ticks();
    let default = ModuleHost::new();
    assert_eq!(one, 1);
    assert!(default.deadline_ticks() > 1);
}

#[test]
fn quoted_commas_stay_in_an_item() {
    let text = "[module]\nname=\"x\"\nversion=\"1\"\nkind=\"lua\"\nentry=\"x.lua\"\n[permissions]\nfs=[\"a\",\"b\",]\n";
    let m = Manifest::parse(text).unwrap();
    assert_eq!(m.permissions.fs, vec!["a", "b"]);
    assert_eq!(m.kind, ModuleKind::Lua);
    assert_eq!(m.kind.as_str(), "lua");
}

#[test]
fn the_last_assignment_counts() {
    let text = "[module]\nname=\"x\"\nname=\"y\"\nversion=\"1\"\nkind=\"lua\"\nentry=\"x.lua\"\n";
    assert_eq!(Manifest::parse(text).unwrap().name, "y");
}

#[test]
fn manifest_errors_say_what_went_wrong() {
    assert_eq!(
        ManifestError::MissingField("module.version").message(),
        "missing required field `module.version`"
    );
    assert_eq!(
        ManifestError::UnknownKind("python".to_string()).message(),
        "unknown module kind `python` (expected `wasm` or `lua`)"
    );
    assert_eq!(ManifestError::Io("gone".to_string()).message(), "cannot read manifest: gone");
}

#[test]
fn enabled_modules_are_read_back() {
    let mut names: Table<()> = Table::new();
    names.insert("beta".to_string(), ());
    names.insert("alpha".to_string(), ());
    let text = save_enabled(&names);
    let back = load_enabled(Some(&text));
    assert_eq!(back.names(), vec!["alpha".to_string(), "beta".to_string()]);
    assert_eq!(load_enabled(None).len(), 0);
}

#[test]
fn modules_are_kept_beside_the_configuration() {
    assert_eq!(modules_dir(Some("/x"), Some("/home/u")), Some("/x/umber/modules".to_string()));
    assert_eq!(
        modules_dir(None, Some("/home/u")),
        Some("/home/u/.config/umber/modules".to_string())
    );
    assert_eq!(enabled_path(None, None), None);
}

fn found(dir: &str, text: &str) -> Discovered {
    Discovered {
        dir_name: dir.to_string(),
        base_dir: format!("/m/{dir}"),
        manifest: Manifest::parse(text),
    }
}

#[test]
fn what_was_found_is_listed_by_directory() {
    let good = "[module]\nname=\"zed\"\nversion=\"1\"\nkind=\"lua\"\nentry=\"x.lua\"\n";
    let all = discover(vec![found("c", ""), found("a", good), found("b", "")]);
    let dirs: Vec<&str> = all.iter().map(|d| d.dir_name.as_str()).collect();
    assert_eq!(dirs, vec!["a", "b", "c"]);
    assert_eq!(all[0].name(), "zed");
    assert_eq!(all[1].name(), "b");
}
