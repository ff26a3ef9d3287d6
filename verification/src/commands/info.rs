//! What the overview of an image shows.

use crate::output::human::Sections;
use crate::output::rows::{default_columns, TsvOptions};
use crate::text::{split, split_all, texts, trim, trimmed};
use vstd::prelude::*;
use vstd::string::*;

verus! {

/// A request for the overview of an image.
#[derive(Debug)]
pub struct InfoArgs {
    pub image: String,
    pub format: String,
    pub slot: String,
    pub suffix: String,
    pub no_header: bool,
    pub columns: Option<String>,
    pub bytes: bool,
    pub info: bool,
    pub partitions: bool,
    pub extents: bool,
    pub groups: bool,
    pub devices: bool,
    pub mapping: bool,
    pub all: bool,
    pub get: Option<String>,
    pub device: Vec<String>,
    pub list_keys: bool,
}

/// Whether everything is shown: where that is asked for, or nothing else is.
pub open spec fn shows_all(args: InfoArgs) -> bool {
    args.all || !(args.info || args.partitions || args.extents || args.groups || args.devices
        || args.mapping)
}

/// The sections that are shown.
pub fn choose_sections(args: &InfoArgs) -> (r: Sections)
    ensures
        r == (Sections {
            info: shows_all(*args) || args.info,
            groups: shows_all(*args) || args.groups,
            devices: shows_all(*args) || args.devices,
            partitions: shows_all(*args) || args.partitions,
            extents: shows_all(*args) || args.extents,
            mapping: shows_all(*args) || args.mapping,
        }),
{
    let all = args.all || !(args.info || args.partitions || args.extents || args.groups
        || args.devices || args.mapping);
    Sections {
        info: all || args.info,
        groups: all || args.groups,
        devices: all || args.devices,
        partitions: all || args.partitions,
        extents: all || args.extents,
        mapping: all || args.mapping,
    }
}

/// The columns that are shown: those asked for, or else the usual ones.
pub open spec fn columns_of(args: InfoArgs) -> Seq<Seq<char>> {
    match args.columns {
        Some(list) => split_all(list@, ',').map_values(|c: Seq<char>| trimmed(c)),
        None => default_columns(),
    }
}

/// What a tab-separated table shows.
pub fn choose_columns(args: &InfoArgs) -> (r: TsvOptions)
    ensures
        r.header == !args.no_header,
        r.bytes == args.bytes,
        texts(r.columns@) == columns_of(*args),
{
    match &args.columns {
        None => {
            let usual = TsvOptions::default();
            TsvOptions { header: !args.no_header, columns: usual.columns, bytes: args.bytes }
        },
        Some(list) => {
            let words = split(list.as_str(), ',');
            let ghost all = split_all(list@, ',');
            let mut columns: Vec<String> = Vec::new();
            let mut i: usize = 0;
            while i < words.len()
                invariant
                    i <= words.len(),
                    texts(words@) == all,
                    columns@.len() == i,
                    forall|k: int| 0 <= k < i ==> (#[trigger] columns@[k])@ == trimmed(all[k]),
                decreases words.len() - i,
            {
                assert(all[i as int] == words@[i as int]@);
                columns.push(String::from_str(trim(words[i].as_str())));
                i += 1;
            }
            assert(texts(columns@) =~= all.map_values(|c: Seq<char>| trimmed(c)));
            TsvOptions { header: !args.no_header, columns, bytes: args.bytes }
        },
    }
}

} // verus!
