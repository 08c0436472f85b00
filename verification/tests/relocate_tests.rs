use proto_build::dir::DirState;
use proto_build::dir::FileEntry;
use proto_build::patch::RegexReplace;
use proto_build::relocate::Discovered;
use proto_build::relocate::relocate;

fn ok_file(name: &str, content: &str) -> Discovered {
    Discovered { name: String::from(name), content: Ok(String::from(content)) }
}

fn bad_file(name: &str, message: &str) -> Discovered {
    Discovered { name: String::from(name), content: Err(String::from(message)) }
}

fn prior_with(name: &str, content: &str) -> DirState {
    let mut d = DirState::empty();
    d.put(String::from(name), String::from(content));
    d
}

#[test]
fn clean_relocation_is_idempotent() {
    let discovered = vec![ok_file("a.ext", "alpha"), ok_file("b.ext", "beta")];
    let exclusions: Vec<String> = Vec::new();
    let patches = vec![RegexReplace::new("alpha", "gamma")];
    let once = relocate(
        &discovered,
        &exclusions,
        &patches,
        prior_with("stale.ext", "old"),
        true,
    )
    .unwrap();
    let twice = relocate(&discovered, &exclusions, &patches, once.dest.duplicate(), true).unwrap();
    assert_eq!(once.dest, twice.dest);
    assert!(once.dest.get(&String::from("stale.ext")).is_none());
    assert_eq!(once.dest.get(&String::from("a.ext")).unwrap(), "gamma");
}

#[test]
fn overlay_keeps_prior_files() {
    let discovered = vec![ok_file("a.ext", "alpha")];
    let exclusions: Vec<String> = Vec::new();
    let patches: Vec<RegexReplace> = Vec::new();
    let out = relocate(&discovered, &exclusions, &patches, prior_with("stale.ext", "old"), false)
        .unwrap();
    assert_eq!(out.dest.get(&String::from("stale.ext")).unwrap(), "old");
    assert_eq!(out.dest.get(&String::from("a.ext")).unwrap(), "alpha");
}

#[test]
fn batch_reports_every_read_failure_and_keeps_successes() {
    // Ten discovered files, three of which fail to read: the report names
    // exactly those three, and the seven written files stay in place.
    let mut discovered = Vec::new();
    for i in 0..4 {
        discovered.push(ok_file(&format!("ok{}.ext", i), &format!("text{}", i)));
    }
    discovered.push(bad_file("bad0.ext", "permission denied"));
    discovered.push(bad_file("bad1.ext", "not valid utf-8"));
    for i in 4..7 {
        discovered.push(ok_file(&format!("ok{}.ext", i), &format!("text{}", i)));
    }
    discovered.push(bad_file("bad2.ext", "stream did not contain valid data"));
    assert_eq!(discovered.len(), 10);
    let exclusions: Vec<String> = Vec::new();
    let patches: Vec<RegexReplace> = Vec::new();
    let out = relocate(&discovered, &exclusions, &patches, DirState::empty(), true).unwrap();
    let failed_names: Vec<String> = out.failed.iter().map(|f| f.name.clone()).collect();
    assert_eq!(
        failed_names,
        vec![
            String::from("bad0.ext"),
            String::from("bad1.ext"),
            String::from("bad2.ext")
        ]
    );
    assert_eq!(out.failed[0].message, "permission denied");
    for i in 0..7 {
        let name = format!("ok{}.ext", i);
        assert_eq!(out.dest.get(&name).unwrap(), &format!("text{}", i));
    }
    assert!(out.dest.get(&String::from("bad0.ext")).is_none());
}

#[test]
fn empty_config_copies_byte_for_byte() {
    let discovered = vec![
        ok_file("x.ext", "pub struct A {}\n"),
        ok_file("y.ext", "pub enum B {}\n"),
    ];
    let exclusions: Vec<String> = Vec::new();
    let patches: Vec<RegexReplace> = Vec::new();
    let out = relocate(&discovered, &exclusions, &patches, DirState::empty(), true).unwrap();
    assert_eq!(out.dest.files.len(), 2);
    assert_eq!(out.dest.get(&String::from("x.ext")).unwrap(), "pub struct A {}\n");
    assert_eq!(out.dest.get(&String::from("y.ext")).unwrap(), "pub enum B {}\n");
    assert!(out.failed.is_empty());
}

#[test]
fn excluded_files_are_dropped_silently() {
    let discovered = vec![
        ok_file("cosmos.bank.v1beta1.ext", "bank"),
        // Even a failed read of an excluded file is not reported.
        bad_file("cosmos.staking.v1beta1.ext", "unreadable"),
        ok_file("cosmwasm.wasm.v1.ext", "wasm"),
    ];
    let exclusions = vec![String::from("cosmos")];
    let patches: Vec<RegexReplace> = Vec::new();
    let out = relocate(&discovered, &exclusions, &patches, DirState::empty(), true).unwrap();
    assert!(out.failed.is_empty());
    assert!(out.dest.get(&String::from("cosmos.bank.v1beta1.ext")).is_none());
    assert_eq!(out.dest.get(&String::from("cosmwasm.wasm.v1.ext")).unwrap(), "wasm");
}

#[test]
fn config_error_aborts_when_a_file_reaches_the_patch_engine() {
    let discovered = vec![ok_file("a.ext", "alpha")];
    let exclusions: Vec<String> = Vec::new();
    let patches = vec![RegexReplace::new("(broken", "x")];
    let err = relocate(&discovered, &exclusions, &patches, DirState::empty(), true).unwrap_err();
    assert_eq!(err.index, 0);
    assert_eq!(err.pattern, "(broken");
}

#[test]
fn config_error_stays_hidden_when_nothing_is_patched() {
    // A bad pattern surfaces only when some surviving file is patched: with
    // every file excluded the batch still succeeds, as the build tool does.
    let discovered = vec![ok_file("cosmos.bank.v1beta1.ext", "bank")];
    let exclusions = vec![String::from("cosmos")];
    let patches = vec![RegexReplace::new("(broken", "x")];
    let out = relocate(&discovered, &exclusions, &patches, DirState::empty(), true).unwrap();
    assert_eq!(out.dest.files.len(), 0);
}

#[test]
fn marker_is_gated_during_relocation() {
    let marker = proto_build::patch::tonic_client_attribute();
    let gate = proto_build::patch::grpc_client_attributes();
    let discovered = vec![ok_file("svc.ext", &format!("{}\npub mod client {{}}\n", marker))];
    let exclusions: Vec<String> = Vec::new();
    let patches: Vec<RegexReplace> = Vec::new();
    let out = relocate(&discovered, &exclusions, &patches, DirState::empty(), true).unwrap();
    assert_eq!(
        out.dest.get(&String::from("svc.ext")).unwrap(),
        &format!("{}\npub mod client {{}}\n", gate)
    );
    assert!(!out.dest.get(&String::from("svc.ext")).unwrap().contains(marker));
}

#[test]
fn dir_state_put_overwrites_and_get_reads_back() {
    let mut d = DirState::empty();
    d.put(String::from("a.ext"), String::from("one"));
    d.put(String::from("b.ext"), String::from("two"));
    d.put(String::from("a.ext"), String::from("three"));
    assert_eq!(d.files.len(), 2);
    assert_eq!(d.get(&String::from("a.ext")).unwrap(), "three");
    assert_eq!(d.get(&String::from("b.ext")).unwrap(), "two");
    assert!(d.get(&String::from("c.ext")).is_none());
    let copy = d.duplicate();
    assert_eq!(copy, d);
}

#[test]
fn merge_from_overwrites_in_order() {
    let mut d = DirState::empty();
    d.put(String::from("x.ext"), String::from("old"));
    let emitted = vec![
        FileEntry { name: String::from("x.ext"), content: String::from("new") },
        FileEntry { name: String::from("y.ext"), content: String::from("fresh") },
    ];
    d.merge_from(&emitted);
    assert_eq!(d.get(&String::from("x.ext")).unwrap(), "new");
    assert_eq!(d.get(&String::from("y.ext")).unwrap(), "fresh");
}
