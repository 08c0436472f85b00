//! The wasmd project: one schema tree whose run reuses the intermediate
//! directory left by the cosmos run, excluding every package that the other
//! trees own.

use vstd::prelude::*;
use vstd::string::*;
use crate::pipeline::Project;
use crate::pipeline::RunPlan;

verus! {

/// The wasmd run: a single project that overlays nothing — its destination
/// tree is reset — but reads the shared intermediate directory without
/// cleaning it first, so its exclusion set must drop every package that the
/// cosmos trees own.
pub fn wasmd_main(root: String, tmp_dir: &str, out_dir: &str) -> (r: RunPlan)
    ensures
        r.intermediate_dir@ == tmp_dir@,
        r.projects@.len() == 1,
        ({
            let p = r.projects@[0];
            &&& p.template@ == "buf.sdk.gen.yaml"@
            &&& p.source_root@ == root@
            &&& p.schema_subdir@ == "proto"@
            &&& p.exclusions@.len() == 6
            &&& p.exclusions@[0]@ == "cosmos"@
            &&& p.exclusions@[1]@ == "tendermint"@
            &&& p.exclusions@[2]@ == "cosmos_proto"@
            &&& p.exclusions@[3]@ == "gogoproto"@
            &&& p.exclusions@[4]@ == "google"@
            &&& p.exclusions@[5]@ == "amino"@
            &&& p.patches@.len() == 0
            &&& p.clean_intermediate == false
            &&& p.clean_destination == true
            &&& p.destination_root@ == out_dir@
        }),
{
    let mut exclusions: Vec<String> = Vec::new();
    exclusions.push(String::from_str("cosmos"));
    exclusions.push(String::from_str("tendermint"));
    exclusions.push(String::from_str("cosmos_proto"));
    exclusions.push(String::from_str("gogoproto"));
    exclusions.push(String::from_str("google"));
    exclusions.push(String::from_str("amino"));
    let wasmd = Project {
        template: String::from_str("buf.sdk.gen.yaml"),
        source_root: root,
        schema_subdir: String::from_str("proto"),
        exclusions,
        patches: Vec::new(),
        clean_intermediate: false,
        clean_destination: true,
        destination_root: String::from_str(out_dir),
    };
    let mut projects: Vec<Project> = Vec::new();
    projects.push(wasmd);
    RunPlan { intermediate_dir: String::from_str(tmp_dir), projects }
}

} // verus!
