//! The dictionaries an installation is configured with.
use vstd::prelude::*;

verus! {

/// One dictionary file: where it is, its text encoding and its format.
#[derive(Clone, Debug, PartialEq, Eq)]
pub struct DictConfig {
    pub path: String,
    pub encoding: String,
    pub dict_type: String,
}

/// The configuration: the dictionaries, in the order they are consulted.
#[derive(Clone, Debug, PartialEq, Eq)]
pub struct Config {
    pub dicts: Vec<DictConfig>,
}

impl DictConfig {
    pub fn new(path: &str, encoding: &str, dict_type: &str) -> (r: DictConfig)
        ensures
            r.path@ == path@,
            r.encoding@ == encoding@,
            r.dict_type@ == dict_type@,
    {
        DictConfig { path: path.to_owned(), encoding: encoding.to_owned(), dict_type: dict_type.to_owned() }
    }
}

} // verus!
