//! The width of a panel whose separator can be dragged, kept between sessions, each panel's in
//! its own file of the data directory.

use vstd::prelude::*;
use vstd::string::*;

use crate::git::told;
use crate::number::{self, to_decimal};
use crate::path::{self, join};

verus! {

/// Where the width of a panel is kept.
pub fn state_file(data_dir: &str, name: &str) -> (file: String)
    ensures
        file@ == path::joined(data_dir@, name@ + ".toml"@),
{
    join(data_dir, told(name, ".toml").as_str())
}

/// Where the width of a panel is written aside, before it is renamed over the one kept.
pub fn temp_file(data_dir: &str, name: &str, process: u32) -> (file: String)
    ensures
        file@ == path::joined(
            data_dir@,
            "."@ + name@ + "."@ + number::decimal(process as nat) + ".toml"@,
        ),
{
    let mut aside = told(".", name);
    aside.append(".");
    aside.append(to_decimal(process as u64).as_str());
    aside.append(".toml");
    join(data_dir, aside.as_str())
}

} // verus!
