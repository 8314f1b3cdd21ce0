//! The backends a server can be configured with, by name.
use super::api::Driver;
use crate::util::same_text;
use vstd::prelude::*;

verus! {

/// A backend that configuration can name, with the help text for the
/// command-line option that opens a single database with it.
pub struct Backend {
    pub name: String,
    pub cli_help: String,
    pub cli_value_name: String,
    pub driver: Box<dyn Driver>,
}

pub open spec fn value_name_text(id: Seq<char>) -> Seq<char> {
    id + "-DB-PATH"@
}

pub open spec fn help_text(id: Seq<char>) -> Seq<char> {
    "Zeroconf; ignore server config, and create single database 'db' using backend "@ + id
        + " with param "@ + value_name_text(id)
}

/// The backend named `id` ("sled" or "lmdb"); any other name is refused.
pub fn build_backend(id: &str) -> (r: Result<Backend, &'static str>)
    ensures
        r is Ok <==> (id@ == "sled"@ || id@ == "lmdb"@),
        r is Ok ==> r->Ok_0.name@ == id@,
        r is Ok ==> r->Ok_0.cli_value_name@ == value_name_text(id@),
        r is Ok ==> r->Ok_0.cli_help@ == help_text(id@),
{
    let driver = if same_text(id, "sled") {
        super::sled::new_driver()
    } else if same_text(id, "lmdb") {
        super::lmdb::new_driver()
    } else {
        return Err("unknown db driver");
    };
    let mut value_name = String::from_str(id);
    value_name.append("-DB-PATH");
    let mut help = String::from_str(
        "Zeroconf; ignore server config, and create single database 'db' using backend ",
    );
    help.append(id);
    help.append(" with param ");
    help.append(value_name.as_str());
    Ok(Backend { name: String::from_str(id), cli_help: help, cli_value_name: value_name, driver })
}

/// Every backend, in a fixed order.
pub fn register_backends() -> (r: Vec<Backend>)
    ensures
        r@.len() == 2,
        r@[0].name@ == "sled"@,
        r@[1].name@ == "lmdb"@,
{
    let mut backends: Vec<Backend> = Vec::new();
    proof {
        reveal_strlit("sled");
        reveal_strlit("lmdb");
    }
    match build_backend("sled") {
        Ok(b) => backends.push(b),
        Err(_e) => {},
    }
    match build_backend("lmdb") {
        Ok(b) => backends.push(b),
        Err(_e) => {},
    }
    backends
}

/// The position of the backend called `name`.
pub fn find_backend(backends: &Vec<Backend>, name: &str) -> (r: Option<usize>)
    ensures
        r matches Some(i) ==> i < backends@.len() && backends@[i as int].name@ == name@,
        r is None ==> forall|i: int| 0 <= i < backends@.len() ==> backends@[i].name@ != name@,
{
    let mut i: usize = 0;
    while i < backends.len()
        invariant
            i <= backends@.len(),
            forall|j: int| 0 <= j < i ==> backends@[j].name@ != name@,
        decreases backends@.len() - i,
    {
        if same_text(backends[i].name.as_str(), name) {
            return Some(i);
        }
        i = i + 1;
    }
    None
}

} // verus!
