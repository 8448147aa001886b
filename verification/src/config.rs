//! Configuration of the core: the selection, the sorter, the sidecar file
//! names, and the text format the sidecars are decoded from.

use vstd::prelude::*;

use crate::selection::Selection;
use crate::sorter::Sorter;
use crate::sorter::SortBy;
use crate::sorter::SortOrder;
use crate::target::Target;
use crate::target::target_stem;
use crate::matcher::matcher_matches;
use crate::selection::starts_with;

verus! {

/// The two interchangeable sidecar text encodings.
#[derive(Debug, Clone, Copy, PartialEq, Eq, Hash)]
pub enum SerializeFormat {
    Yaml,
    Json,
}

/// The default file extension of each text encoding.
pub open spec fn format_extension(f: SerializeFormat) -> Seq<char> {
    match f {
        SerializeFormat::Yaml => "yml"@,
        SerializeFormat::Json => "json"@,
    }
}

impl SerializeFormat {
    /// The default file extension of this text encoding.
    pub fn default_file_extension(&self) -> (r: &'static str)
        ensures
            r@ == format_extension(*self),
    {
        match self {
            SerializeFormat::Yaml => "yml",
            SerializeFormat::Json => "json",
        }
    }
}

impl Default for SerializeFormat {
    /// Sidecars decode from the YAML-style encoding unless configured
    /// otherwise.
    fn default() -> (r: SerializeFormat)
        ensures
            r == SerializeFormat::Yaml,
    {
        SerializeFormat::Yaml
    }
}

/// One glob pattern, or a list of them: the two shapes a configuration
/// document may write a pattern set in.
#[derive(Debug, PartialEq, Eq)]
pub enum Ooms {
    One(String),
    Many(Vec<String>),
}

impl Ooms {
    /// The patterns as one list, in order.
    pub fn into_strings(self) -> (r: Vec<String>)
        ensures
            match self {
                Ooms::One(s) => r@ == seq![s],
                Ooms::Many(ss) => r@ == ss@,
            },
    {
        match self {
            Ooms::One(s) => {
                let mut out: Vec<String> = Vec::new();
                out.push(s);
                proof {
                    assert(out@ =~= seq![out@[0]]);
                }
                out
            },
            Ooms::Many(ss) => ss,
        }
    }
}

/// All the options the core recognizes.
#[derive(Debug)]
pub struct Config {
    /// Which files and directories take part.
    pub selection: Selection,
    /// How sibling paths order.
    pub sorter: Sorter,
    /// The file name of the siblings sidecar.
    pub item_fn: String,
    /// The file name of the parent sidecar.
    pub self_fn: String,
    /// Which text encoding sidecars decode from.
    pub serialize_format: SerializeFormat,
}

impl Default for Config {
    /// The default configuration: the default selection, name-ascending
    /// order, the YAML-style encoding, and the sidecar names built from
    /// the canonical stems and that encoding's extension.
    fn default() -> (r: Config)
        ensures
            forall|name: Seq<char>| matcher_matches(r.selection.include_files@, name),
            forall|name: Seq<char>|
                matcher_matches(r.selection.exclude_files@, name) <==> (starts_with(
                    name,
                    target_stem(Target::Parent),
                ) || starts_with(name, target_stem(Target::Siblings))),
            forall|name: Seq<char>| matcher_matches(r.selection.include_dirs@, name),
            forall|name: Seq<char>| !matcher_matches(r.selection.exclude_dirs@, name),
            r.sorter == (Sorter { sort_by: SortBy::Name, sort_order: SortOrder::Ascending }),
            r.item_fn@ == "item.yml"@,
            r.self_fn@ == "self.yml"@,
            r.serialize_format == SerializeFormat::Yaml,
    {
        let selection: Selection = Selection::default_sel();
        let sorter: Sorter = Sorter { sort_by: SortBy::Name, sort_order: SortOrder::Ascending };
        let item_fn: String = "item.yml".to_owned();
        let self_fn: String = "self.yml".to_owned();
        Config { selection, sorter, item_fn, self_fn, serialize_format: SerializeFormat::Yaml }
    }
}

} // verus!
