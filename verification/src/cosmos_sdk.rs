//! The cosmos family of projects: the ibc tree first, then the cosmos-sdk
//! tree, both emitting into one shared intermediate directory and relocating
//! into one shared destination tree.

use vstd::prelude::*;
use vstd::string::*;
use crate::patch::RegexReplace;
use crate::pipeline::Project;
use crate::pipeline::RunPlan;

verus! {

/// Root directories of the schema source trees that the cosmos pipeline
/// manages.
pub struct RootDirs {
    pub cosmos: String,
    pub tendermint: String,
    pub ibc: String,
}

/// The cosmos run: the ibc project first — it resets both the shared
/// intermediate directory and the destination tree — then the cosmos-sdk
/// project, which overlays the same destination tree and deliberately leaves
/// its artifacts in the intermediate directory for the run that follows.
/// The order is load-bearing: swapping the two changes which artifacts the
/// second relocation sees.
pub fn cosmos_main(roots: RootDirs, tmp_dir: &str, out_dir: &str) -> (r: RunPlan)
    ensures
        r.intermediate_dir@ == tmp_dir@,
        r.projects@.len() == 2,
        ({
            let p = r.projects@[0];
            &&& p.template@ == "buf.sdk.gen.yaml"@
            &&& p.source_root@ == roots.ibc@
            &&& p.schema_subdir@ == "proto"@
            &&& p.exclusions@.len() == 0
            &&& p.patches@.len() == 0
            &&& p.clean_intermediate == true
            &&& p.clean_destination == true
            &&& p.destination_root@ == out_dir@
        }),
        ({
            let p = r.projects@[1];
            &&& p.template@ == "buf.sdk.gen.yaml"@
            &&& p.source_root@ == roots.cosmos@
            &&& p.schema_subdir@ == "proto"@
            &&& p.exclusions@.len() == 0
            &&& p.patches@.len() == 2
            &&& p.patches@[0].regex@ == "enum Validators"@
            &&& p.patches@[0].replace@ == "enum Policy"@
            &&& p.patches@[1].regex@ == "stake_authorization::Validators"@
            &&& p.patches@[1].replace@ == "stake_authorization::Policy"@
            &&& p.clean_intermediate == false
            &&& p.clean_destination == false
            &&& p.destination_root@ == out_dir@
        }),
{
    let ibc = Project {
        template: String::from_str("buf.sdk.gen.yaml"),
        source_root: roots.ibc,
        schema_subdir: String::from_str("proto"),
        exclusions: Vec::new(),
        patches: Vec::new(),
        clean_intermediate: true,
        clean_destination: true,
        destination_root: String::from_str(out_dir),
    };
    let mut sdk_patches: Vec<RegexReplace> = Vec::new();
    sdk_patches.push(RegexReplace::new("enum Validators", "enum Policy"));
    sdk_patches.push(
        RegexReplace::new("stake_authorization::Validators", "stake_authorization::Policy"),
    );
    let sdk = Project {
        template: String::from_str("buf.sdk.gen.yaml"),
        source_root: roots.cosmos,
        schema_subdir: String::from_str("proto"),
        exclusions: Vec::new(),
        patches: sdk_patches,
        clean_intermediate: false,
        clean_destination: false,
        destination_root: String::from_str(out_dir),
    };
    let mut projects: Vec<Project> = Vec::new();
    projects.push(ibc);
    projects.push(sdk);
    RunPlan { intermediate_dir: String::from_str(tmp_dir), projects }
}

} // verus!
