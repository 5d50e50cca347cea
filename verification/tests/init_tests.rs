use chenv::init::find_lts;
use chenv::init::find_stable;
use chenv::init::first_word;
use chenv::init::go_environment;
use chenv::init::java_environment;
use chenv::init::latest_published;
use chenv::init::maven_environment;
use chenv::init::node_environment;
use chenv::init::python_environment;
use chenv::init::sbt_environment;
use chenv::interpol::Env;
use chenv::osinfo::Os;
use chenv::resource::Resource;
use chenv::substrate::Substrate;
use chenv::value::Value;

fn release(fields: Vec<(&str, Value)>) -> Value {
    Value::Obj(fields.into_iter().map(|(k, v)| (k.to_string(), v)).collect())
}

#[test]
fn first_word_cuts_at_the_first_space() {
    assert_eq!(first_word("abc def ghi"), "abc");
    assert_eq!(first_word("single"), "single");
    assert_eq!(first_word(" leading"), "");
}

#[test]
fn java_bundle_declares_jdk_resource_and_java_home() {
    let release_name = "jdk-21.0.1+12".to_string();
    let e = java_environment(
        &release_name,
        "https://example.org/jdk.tar.gz".to_string(),
        "aa".repeat(32),
    );
    let rm = e.resources.as_ref().unwrap();
    match rm.get(&"java".to_string()).unwrap() {
        Resource::File { repo_location, file } => {
            assert!(repo_location.is_none());
            assert_eq!(file.name, "jdk");
            assert!(file.archive);
            assert_eq!(file.sha256.as_deref(), Some("aa".repeat(32).as_str()));
        }
        _ => panic!("the java resource must be a file"),
    }
    let ctx = {
        let mut ctx = Env::new();
        ctx.insert("java".to_string(), Substrate::new("/store/j".to_string()));
        ctx
    };
    let vars = e.get_env(&ctx).unwrap();
    let (k, v) = vars.entry_at(0);
    assert_eq!(k.as_str(), "JAVA_HOME");
    assert_eq!(v.as_str(), "/store/j/jdk/jdk-21.0.1+12");
    let path = e.get_path(&ctx).unwrap();
    assert_eq!(path, vec!["/store/j/jdk/jdk-21.0.1+12/bin".to_string()]);
}

#[test]
fn maven_and_sbt_bundles_point_at_their_releases() {
    let m = maven_environment(&"3.9.9".to_string(), "bb".repeat(64));
    let rm = m.resources.as_ref().unwrap();
    match rm.get(&"maven".to_string()).unwrap() {
        Resource::File { file, .. } => {
            assert_eq!(file.name, "mvn");
            assert!(file.sha256.is_none());
            assert!(file.sha512.is_some());
        }
        _ => panic!("the maven resource must be a file"),
    }
    assert!(m.env.is_none());

    let s = sbt_environment(&"1.10.0".to_string(), "cc".repeat(32));
    let ctx = {
        let mut ctx = Env::new();
        ctx.insert("sbt".to_string(), Substrate::new("/store/s".to_string()));
        ctx
    };
    let path = s.get_path(&ctx).unwrap();
    assert_eq!(path, vec!["/store/s/sbt/sbt/bin".to_string()]);
}

#[test]
fn go_node_python_bundles_choose_platform_urls() {
    let g = go_environment(&"go1.22.1".to_string(), "dd".repeat(32), &Os::Linux);
    let rm = g.resources.as_ref().unwrap();
    match rm.get(&"go".to_string()).unwrap() {
        Resource::File { file, .. } => {
            let deps = file.get_dependances().unwrap();
            assert!(deps.is_empty());
        }
        _ => panic!("the go resource must be a file"),
    }

    let n = node_environment(&"v20.0.0".to_string(), "ee".repeat(32), &Os::Linux);
    let ctx = {
        let mut ctx = Env::new();
        ctx.insert("node".to_string(), Substrate::new("/store/n".to_string()));
        ctx
    };
    let vars = n.get_env(&ctx).unwrap();
    let (k, v) = vars.entry_at(0);
    assert_eq!(k.as_str(), "NODE_HOME");
    assert_eq!(v.as_str(), "/store/n/node/node-v20.0.0-linux-x64");

    let p = python_environment(&"3.12.1".to_string(), "ff".repeat(32), &Os::Linux);
    let ctx = {
        let mut ctx = Env::new();
        ctx.insert("python".to_string(), Substrate::new("/store/p".to_string()));
        ctx
    };
    assert_eq!(
        p.get_path(&ctx).unwrap(),
        vec!["/store/p/python/bin".to_string()]
    );
}

#[test]
fn find_stable_picks_the_first_stable_release() {
    let versions = vec![
        release(vec![("version", Value::Str("go1.23rc1".to_string())), ("stable", Value::Bool(false))]),
        release(vec![("version", Value::Str("go1.22.1".to_string())), ("stable", Value::Bool(true))]),
        release(vec![("version", Value::Str("go1.21.8".to_string())), ("stable", Value::Bool(true))]),
    ];
    let picked = find_stable(&versions).unwrap();
    match picked {
        Value::Obj(fields) => match &fields[0].1 {
            Value::Str(s) => assert_eq!(s, "go1.22.1"),
            _ => panic!("version must be a string"),
        },
        _ => panic!("a release must be an object"),
    }
    assert!(find_stable(&Vec::new()).is_none());
}

#[test]
fn find_lts_accepts_codename_strings() {
    let versions = vec![
        release(vec![("version", Value::Str("v22.0.0".to_string())), ("lts", Value::Bool(false))]),
        release(vec![("version", Value::Str("v20.12.0".to_string())), ("lts", Value::Str("Iron".to_string()))]),
    ];
    let picked = find_lts(&versions).unwrap();
    match picked {
        Value::Obj(fields) => match &fields[0].1 {
            Value::Str(s) => assert_eq!(s, "v20.12.0"),
            _ => panic!("version must be a string"),
        },
        _ => panic!("a release must be an object"),
    }
}

#[test]
fn latest_published_takes_the_greatest_release_date() {
    let versions = vec![
        release(vec![
            ("name", Value::Str("Python 3.11.0".to_string())),
            ("is_published", Value::Bool(true)),
            ("release_date", Value::Str("2022-10-24".to_string())),
        ]),
        release(vec![
            ("name", Value::Str("Python 3.13.0".to_string())),
            ("is_published", Value::Bool(false)),
            ("release_date", Value::Str("2099-01-01".to_string())),
        ]),
        release(vec![
            ("name", Value::Str("Python 3.12.1".to_string())),
            ("is_published", Value::Bool(true)),
            ("release_date", Value::Str("2023-12-08".to_string())),
        ]),
    ];
    let picked = latest_published(&versions).unwrap();
    match picked {
        Value::Obj(fields) => match &fields[0].1 {
            Value::Str(s) => assert_eq!(s, "Python 3.12.1"),
            _ => panic!("name must be a string"),
        },
        _ => panic!("a release must be an object"),
    }
    assert!(latest_published(&Vec::new()).is_none());
}
