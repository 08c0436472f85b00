use proto_build::cosmos_sdk::RootDirs;
use proto_build::cosmos_sdk::cosmos_main;
use proto_build::dir::DirState;
use proto_build::dir::FileEntry;
use proto_build::patch::RegexReplace;
use proto_build::pipeline::CompilerEvent;
use proto_build::pipeline::Project;
use proto_build::pipeline::RunError;
use proto_build::pipeline::World;
use proto_build::pipeline::run_pipeline;
use proto_build::pipeline::run_step;
use proto_build::wasmd::wasmd_main;

fn entry(name: &str, content: &str) -> FileEntry {
    FileEntry { name: String::from(name), content: String::from(content) }
}

fn plain_project(out: &str, clean_intermediate: bool, clean_destination: bool) -> Project {
    Project {
        template: String::from("buf.sdk.gen.yaml"),
        source_root: String::from("../src"),
        schema_subdir: String::from("proto"),
        exclusions: Vec::new(),
        patches: Vec::new(),
        clean_intermediate,
        clean_destination,
        destination_root: String::from(out),
    }
}

#[test]
fn shared_intermediate_layers_projects() {
    // Project one leaves `x.ext` in the shared intermediate directory;
    // project two also emits `x.ext` with different content. Project one's
    // destination keeps the old content; project two's holds the new one,
    // plus the leftover `y.ext` it never emitted itself.
    let p1 = plain_project("out1", false, true);
    let p2 = plain_project("out2", false, true);
    let projects = vec![p1, p2];
    let events = vec![
        CompilerEvent::Emitted(vec![entry("x.ext", "first"), entry("y.ext", "extra")]),
        CompilerEvent::Emitted(vec![entry("x.ext", "second")]),
    ];
    let world = run_pipeline(&projects, &events, DirState::empty(), World::empty()).unwrap();
    let out1 = world.get_or_empty(&String::from("out1"));
    let out2 = world.get_or_empty(&String::from("out2"));
    assert_eq!(out1.get(&String::from("x.ext")).unwrap(), "first");
    assert_eq!(out1.get(&String::from("y.ext")).unwrap(), "extra");
    assert_eq!(out2.get(&String::from("x.ext")).unwrap(), "second");
    assert_eq!(out2.get(&String::from("y.ext")).unwrap(), "extra");
}

#[test]
fn clean_intermediate_isolates_later_projects() {
    let p1 = plain_project("out1", true, true);
    let p2 = plain_project("out2", false, true);
    let projects = vec![p1, p2];
    let events = vec![
        CompilerEvent::Emitted(vec![entry("x.ext", "first")]),
        CompilerEvent::Emitted(vec![entry("z.ext", "own")]),
    ];
    let world = run_pipeline(&projects, &events, DirState::empty(), World::empty()).unwrap();
    let out2 = world.get_or_empty(&String::from("out2"));
    assert!(out2.get(&String::from("x.ext")).is_none());
    assert_eq!(out2.get(&String::from("z.ext")).unwrap(), "own");
}

#[test]
fn compiler_failure_aborts_the_run() {
    let projects = vec![plain_project("out1", false, true), plain_project("out2", false, true)];
    let events = vec![
        CompilerEvent::Emitted(vec![entry("x.ext", "first")]),
        CompilerEvent::Failed(String::from("exited with error code: 1")),
    ];
    let (at, err) =
        run_pipeline(&projects, &events, DirState::empty(), World::empty()).unwrap_err();
    assert_eq!(at, 1);
    match err {
        RunError::Compiler { template, message } => {
            assert_eq!(template, "buf.sdk.gen.yaml");
            assert_eq!(message, "exited with error code: 1");
        }
        _ => panic!("expected a compiler failure"),
    }
}

#[test]
fn bad_pattern_aborts_as_configuration_error() {
    let mut p = plain_project("out1", false, true);
    p.patches = vec![RegexReplace::new("(oops", "x")];
    let projects = vec![p];
    let events = vec![CompilerEvent::Emitted(vec![entry("x.ext", "text")])];
    let (at, err) =
        run_pipeline(&projects, &events, DirState::empty(), World::empty()).unwrap_err();
    assert_eq!(at, 0);
    match err {
        RunError::Config(e) => {
            assert_eq!(e.index, 0);
            assert_eq!(e.pattern, "(oops");
        }
        _ => panic!("expected a configuration error"),
    }
}

#[test]
fn step_returns_clean_or_laden_intermediate() {
    let p = plain_project("out1", true, true);
    let ev = CompilerEvent::Emitted(vec![entry("x.ext", "first")]);
    let (tmp, _) = run_step(DirState::empty(), World::empty(), &p, &ev).unwrap();
    assert_eq!(tmp.files.len(), 0);
    let p2 = plain_project("out1", false, true);
    let (tmp2, _) = run_step(DirState::empty(), World::empty(), &p2, &ev).unwrap();
    assert_eq!(tmp2.get(&String::from("x.ext")).unwrap(), "first");
}

#[test]
fn cosmos_plan_lists_ibc_before_sdk() {
    let plan = cosmos_main(
        RootDirs {
            cosmos: String::from("../cosmos-sdk/"),
            tendermint: String::from("../tendermint/"),
            ibc: String::from("../ibc-go/"),
        },
        "/tmp/proto/",
        "../cosmos_sdk_proto/src/prost/",
    );
    assert_eq!(plan.intermediate_dir, "/tmp/proto/");
    assert_eq!(plan.projects.len(), 2);
    let ibc = &plan.projects[0];
    assert_eq!(ibc.source_root, "../ibc-go/");
    assert!(ibc.clean_intermediate);
    assert!(ibc.clean_destination);
    assert!(ibc.exclusions.is_empty());
    assert!(ibc.patches.is_empty());
    let sdk = &plan.projects[1];
    assert_eq!(sdk.source_root, "../cosmos-sdk/");
    assert!(!sdk.clean_intermediate);
    assert!(!sdk.clean_destination);
    assert_eq!(sdk.patches.len(), 2);
    assert_eq!(sdk.patches[0].regex, "enum Validators");
    assert_eq!(sdk.patches[0].replace, "enum Policy");
    assert_eq!(sdk.patches[1].regex, "stake_authorization::Validators");
    assert_eq!(sdk.patches[1].replace, "stake_authorization::Policy");
    assert_eq!(sdk.destination_root, ibc.destination_root);
}

#[test]
fn wasmd_plan_excludes_foreign_packages() {
    let plan = wasmd_main(
        String::from("../wasmd/"),
        "/tmp/proto/",
        "../wasmd_proto/src/prost/",
    );
    assert_eq!(plan.intermediate_dir, "/tmp/proto/");
    assert_eq!(plan.projects.len(), 1);
    let p = &plan.projects[0];
    assert_eq!(p.source_root, "../wasmd/");
    assert_eq!(
        p.exclusions,
        vec![
            String::from("cosmos"),
            String::from("tendermint"),
            String::from("cosmos_proto"),
            String::from("gogoproto"),
            String::from("google"),
            String::from("amino"),
        ]
    );
    assert!(p.patches.is_empty());
    assert!(!p.clean_intermediate);
    assert!(p.clean_destination);
}

#[test]
fn both_families_share_one_intermediate_directory() {
    // Drive the two run plans by hand over one threaded intermediate
    // directory, as the build binary does: the sdk project leaves its
    // artifacts behind, and the wasmd project's exclusion set drops them.
    let cosmos_plan = cosmos_main(
        RootDirs {
            cosmos: String::from("../cosmos-sdk/"),
            tendermint: String::from("../tendermint/"),
            ibc: String::from("../ibc-go/"),
        },
        "/tmp/proto/",
        "cosmos_out",
    );
    let wasmd_plan = wasmd_main(String::from("../wasmd/"), "/tmp/proto/", "wasmd_out");
    let events = vec![
        CompilerEvent::Emitted(vec![entry("ibc.core.v1.ext", "ibc code")]),
        CompilerEvent::Emitted(vec![entry(
            "cosmos.staking.v1beta1.ext",
            "enum Validators {}\nstake_authorization::Validators\n",
        )]),
        CompilerEvent::Emitted(vec![entry("cosmwasm.wasm.v1.ext", "wasm code")]),
    ];
    let mut tmp = DirState::empty();
    let mut world = World::empty();
    let mut step_no: usize = 0;
    for (project, event) in cosmos_plan
        .projects
        .iter()
        .chain(wasmd_plan.projects.iter())
        .zip(events.iter())
    {
        let (t, w) = run_step(tmp, world, project, event).unwrap();
        tmp = t;
        world = w;
        step_no += 1;
    }
    assert_eq!(step_no, 3);
    let cosmos_out = world.get_or_empty(&String::from("cosmos_out"));
    assert_eq!(cosmos_out.get(&String::from("ibc.core.v1.ext")).unwrap(), "ibc code");
    assert_eq!(
        cosmos_out.get(&String::from("cosmos.staking.v1beta1.ext")).unwrap(),
        "enum Policy {}\nstake_authorization::Policy\n"
    );
    let wasmd_out = world.get_or_empty(&String::from("wasmd_out"));
    // The sdk leftovers are present in the intermediate directory but the
    // wasmd exclusion set drops them; its own artifact survives.
    assert!(wasmd_out.get(&String::from("cosmos.staking.v1beta1.ext")).is_none());
    assert_eq!(wasmd_out.get(&String::from("cosmwasm.wasm.v1.ext")).unwrap(), "wasm code");
}
