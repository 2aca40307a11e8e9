use crate::business_rules::{Purchase, Rule};
use vstd::prelude::*;
use vstd::string::StringExecFns;

verus! {

/// Where the purchases and the rules are stored.
#[derive(Debug)]
pub struct ApplicationData {
    pub purchase_path: String,
    pub rule_path: String,
}

impl ApplicationData {
    /// The storage files inside the directory written as `path` (which ends
    /// with its separator).
    pub fn from_src_path(path: &str) -> (r: ApplicationData)
        ensures
            r.purchase_path@ == path@ + "all_purchases.json"@,
            r.rule_path@ == path@ + "all_rules.json"@,
    {
        let mut purchase_path = path.to_owned();
        purchase_path.append("all_purchases.json");
        let mut rule_path = path.to_owned();
        rule_path.append("all_rules.json");
        ApplicationData { purchase_path, rule_path }
    }
}

/// Something stored in one of the application's files.
pub trait PathFindable {
    /// The file that holds values of this kind, as a value.
    spec fn stored_at(data: &ApplicationData) -> Seq<char>;

    /// The file that holds values of this kind.
    fn get_path(data: &ApplicationData) -> (r: &str)
        ensures
            r@ == Self::stored_at(data);
}

impl PathFindable for Purchase {
    open spec fn stored_at(data: &ApplicationData) -> Seq<char> {
        data.purchase_path@
    }

    fn get_path(data: &ApplicationData) -> (r: &str) {
        data.purchase_path.as_str()
    }
}

impl PathFindable for Rule {
    open spec fn stored_at(data: &ApplicationData) -> Seq<char> {
        data.rule_path@
    }

    fn get_path(data: &ApplicationData) -> (r: &str) {
        data.rule_path.as_str()
    }
}

} // verus!
