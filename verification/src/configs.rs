//! Where the instances and results live.
use vstd::prelude::*;

verus! {

/// The data directory, the output directory (relative to it) and the instance
/// directory.
pub struct DataPath {
    pub data_dir: String,
    pub output_dir: String,
    pub instances_dir: String,
}

impl Default for DataPath {
    fn default() -> (r: Self)
        ensures
            r.data_dir@ == "src/data"@,
            r.output_dir@ == "/output"@,
            r.instances_dir@ == "src/data/instances"@,
    {
        let data_dir = "src/data".to_string();
        let output_dir = "/output".to_string();
        let instances_dir = "src/data/instances".to_string();
        proof {
            vstd::string::to_string_from_display_ensures_for_str("src/data", data_dir);
            vstd::string::to_string_from_display_ensures_for_str("/output", output_dir);
            vstd::string::to_string_from_display_ensures_for_str("src/data/instances", instances_dir);
        }
        DataPath { data_dir, output_dir, instances_dir }
    }
}

} // verus!
