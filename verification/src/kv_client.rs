//! The options of the `kv-client` program.

use vstd::prelude::*;

use crate::result_view;
use crate::text::{same_text, views};

verus! {

/// The address that optional arguments name: none, or the option and the address.
pub open spec fn address_of(args: Seq<Seq<char>>) -> Result<Seq<char>, Seq<char>> {
    if args.len() == 0 {
        Ok("127.0.0.1:7878"@)
    } else if args.len() == 2 && args[0] == "--addr"@ {
        Ok(args[1])
    } else {
        Err("只支持可选参数 --addr IP:PORT"@)
    }
}

/// Reads the arguments of the program.
pub fn parse_args(args: Vec<String>) -> (result: Result<String, String>)
    ensures
        result_view(result) == address_of(views(args@)),
{
    assert(forall|i: int| 0 <= i < args@.len() ==> #[trigger] views(args@)[i] == args@[i]@);
    if args.len() == 0 {
        Ok("127.0.0.1:7878".to_owned())
    } else if args.len() == 2 && same_text(args[0].as_str(), "--addr") {
        Ok(args[1].clone())
    } else {
        Err("只支持可选参数 --addr IP:PORT".to_owned())
    }
}

/// The address is the one that the only option names; without an option it is that of the
/// server on this machine, and anything else is refused.
pub proof fn law_address_is_the_given_one(args: Seq<Seq<char>>, address: Seq<char>)
    ensures
        address_of(seq!["--addr"@, address]) == Ok::<_, Seq<char>>(address),
        address_of(Seq::empty()) == Ok::<_, Seq<char>>(crate::server::default_config().address),
        address_of(args) is Ok ==> args.len() == 0 || args == seq!["--addr"@, args[1]],
        address_of(args) matches Err(usage) ==> usage == "只支持可选参数 --addr IP:PORT"@,
{
    if args.len() == 2 && args[0] == "--addr"@ {
        assert(args =~= seq!["--addr"@, args[1]]);
    }
}

} // verus!
