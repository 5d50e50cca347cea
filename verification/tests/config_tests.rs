use chenv::config::host_substrate;
use chenv::config::order_dependences;
use chenv::config::seeded_env;
use chenv::config::Environment;
use chenv::config::PathEnv;
use chenv::errors::ChenvError;
use chenv::interpol::Env;
use chenv::interpol::InterpolableString;
use chenv::osinfo::final_path;
use chenv::osinfo::Os;
use chenv::resource::File;
use chenv::resource::Resource;
use chenv::smap::StrMap;
use chenv::substrate::Substrate;
use chenv::value::Value;

const ABC_SHA256: &str = "ba7816bf8f01cfea414140de5dae2223b00361a396177a9cb410ff61f20015ad";

fn template(s: &str) -> InterpolableString {
    InterpolableString::new(s.to_string())
}

fn file_resource(url: &str) -> Resource {
    Resource::File {
        repo_location: None,
        file: File {
            url: template(url),
            name: "tool".to_string(),
            sha256: Some(ABC_SHA256.to_string()),
            sha512: None,
            proxy: None,
            archive: false,
            executable: false,
        },
    }
}

fn env_with(vars: &[(&str, &str)]) -> Env {
    let mut ctx = Env::new();
    for (k, v) in vars {
        ctx.insert(k.to_string(), Substrate::new(v.to_string()));
    }
    ctx
}

#[test]
fn substrate_resolve_walks_fields_and_indices() {
    let v = Value::Obj(vec![
        (
            "env".to_string(),
            Value::Obj(vec![("PATH".to_string(), Value::Str("/usr/bin".to_string()))]),
        ),
        (
            "xs".to_string(),
            Value::Arr(vec![
                Value::Str("x".to_string()),
                Value::Str("y".to_string()),
            ]),
        ),
    ]);
    let sub = Substrate::from_value(v);
    assert_eq!(sub.resolve("env.PATH").unwrap(), "/usr/bin");
    assert_eq!(sub.resolve("xs.1").unwrap(), "y");
    assert!(matches!(
        sub.resolve("env.MISSING").unwrap_err(),
        ChenvError::AmbiguousResolution(ref p) if p == "env.MISSING"
    ));
    assert!(sub.resolve("xs.2").is_err());
}

#[test]
fn substrate_to_string_serializes_structures_canonically() {
    let plain = Substrate::new("bare".to_string());
    assert_eq!(plain.to_string(), "bare");

    let v = Value::Obj(vec![
        ("k".to_string(), Value::Str("a\"b\nc".to_string())),
        ("n".to_string(), Value::Num("42".to_string())),
        ("t".to_string(), Value::Bool(true)),
        ("z".to_string(), Value::Null),
    ]);
    let sub = Substrate::from_value(v);
    assert_eq!(sub.to_string(), "{\"k\":\"a\\\"b\\nc\",\"n\":42,\"t\":true,\"z\":null}");
}

#[test]
fn host_entry_exposes_process_environment() {
    let ctx = seeded_env(vec![
        ("HOME".to_string(), "/root".to_string()),
        ("LANG".to_string(), "C".to_string()),
    ]);
    assert_eq!(ctx.interpolate_str("${host.env.HOME}").unwrap(), "/root");
    assert!(ctx.interpolate_str("${host.env.NOPE}").is_err());

    let sub = host_substrate(vec![("A".to_string(), "1".to_string())]);
    assert_eq!(sub.resolve("env.A").unwrap(), "1");
}

#[test]
fn merge_rejects_conflicting_values_and_keeps_equal_ones() {
    let mk = |value: &str| -> Environment {
        let mut env: StrMap<InterpolableString> = StrMap::new();
        env.insert("X".to_string(), template(value));
        Environment {
            resources: None,
            env: Some(env),
            path: PathEnv(Vec::new()),
        }
    };

    let conflict = mk("one").merge(mk("two"));
    assert!(matches!(conflict, Err(ChenvError::Config(_))));

    let merged = mk("same").merge(mk("same")).unwrap();
    let em = merged.env.as_ref().unwrap();
    assert_eq!(em.len(), 1);

    let ctx = Env::new();
    let vars = merged.get_env(&ctx).unwrap();
    assert_eq!(vars.len(), 1);
    let (k, v) = vars.entry_at(0);
    assert_eq!(k.as_str(), "X");
    assert_eq!(v.as_str(), "same");
}

#[test]
fn merge_concatenates_path_segments() {
    let mk = |seg: &str| -> Environment {
        Environment {
            resources: None,
            env: None,
            path: PathEnv(vec![template(seg)]),
        }
    };
    let merged = mk("p1").merge(mk("p2")).unwrap();
    let ctx = Env::new();
    let path = merged.get_path(&ctx).unwrap();
    assert_eq!(path, vec!["p1".to_string(), "p2".to_string()]);
}

#[test]
fn get_env_interpolates_templates() {
    let mut env: StrMap<InterpolableString> = StrMap::new();
    env.insert("TOOL_HOME".to_string(), template("${tool}/home"));
    let e = Environment {
        resources: None,
        env: Some(env),
        path: PathEnv(vec![template("${tool}/bin")]),
    };
    let ctx = env_with(&[("tool", "/store/t")]);
    let vars = e.get_env(&ctx).unwrap();
    let (k, v) = vars.entry_at(0);
    assert_eq!(k.as_str(), "TOOL_HOME");
    assert_eq!(v.as_str(), "/store/t/home");
    let path = e.get_path(&ctx).unwrap();
    assert_eq!(path, vec!["/store/t/bin".to_string()]);

    let empty = Env::new();
    assert!(e.get_env(&empty).is_err());
    assert!(e.get_path(&empty).is_err());
}

#[test]
fn order_dependences_orders_by_url_references() {
    let mut resources: StrMap<Resource> = StrMap::new();
    resources.insert("app".to_string(), file_resource("${base}/app.bin"));
    resources.insert("base".to_string(), file_resource("https://x/base.bin"));
    let order = order_dependences(&resources).unwrap();
    assert_eq!(order, vec!["base".to_string(), "app".to_string()]);
}

#[test]
fn order_dependences_detects_cycles() {
    let mut resources: StrMap<Resource> = StrMap::new();
    resources.insert("a".to_string(), file_resource("${b}/a"));
    resources.insert("b".to_string(), file_resource("${a}/b"));
    match order_dependences(&resources).unwrap_err() {
        ChenvError::CircularDependency(names) => {
            assert_eq!(names.len(), 2);
        }
        other => panic!("expected a circular dependency, got {:?}", other),
    }
}

#[test]
fn order_dependences_blocks_on_unknown_names() {
    // A reference to a name that is not a declared resource can never be
    // placed; the resolver reports the stuck names.
    let mut resources: StrMap<Resource> = StrMap::new();
    resources.insert("a".to_string(), file_resource("${host.env.X}/a"));
    match order_dependences(&resources).unwrap_err() {
        ChenvError::CircularDependency(names) => {
            assert_eq!(names, vec!["a".to_string()]);
        }
        other => panic!("expected the stuck name, got {:?}", other),
    }
}

#[test]
fn order_dependences_reports_unterminated_template() {
    let mut resources: StrMap<Resource> = StrMap::new();
    resources.insert("a".to_string(), file_resource("${broken"));
    assert!(matches!(
        order_dependences(&resources).unwrap_err(),
        ChenvError::UnterminatedPlaceholder
    ));
}

#[test]
fn final_path_prepends_segments_to_host_path() {
    let segments = vec!["/a".to_string(), "/b".to_string()];
    let host = Some("1:2".to_string());
    assert_eq!(final_path(&segments, &host, &Os::Linux), "/a:/b:1:2");
    assert_eq!(final_path(&segments, &None, &Os::Linux), "/a:/b");
    let whost = Some("C:\\x".to_string());
    assert_eq!(final_path(&segments, &whost, &Os::Windows), "/a;/b;C:\\x");
}

#[test]
fn os_names_and_separators() {
    assert_eq!(Os::from_name("linux"), Some(Os::Linux));
    assert_eq!(Os::from_name("windows"), Some(Os::Windows));
    assert_eq!(Os::from_name("macos"), Some(Os::MacOS));
    assert_eq!(Os::from_name("plan9"), None);
    assert_eq!(Os::Linux.get_shell(), "bash");
    assert_eq!(Os::Windows.get_shell(), "cmd");
    assert_eq!(Os::Linux.get_path(), "PATH");
    assert_eq!(Os::Windows.get_path(), "Path");
    assert_eq!(Os::MacOS.get_code(), "code");
    assert_eq!(Os::Windows.get_code(), "code.cmd");
}
