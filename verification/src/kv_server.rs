//! The options of the `kv-server` program.

use vstd::prelude::*;

use crate::number::{decimal, law_parse_of_decimal, parse_number_text, parsed};
use crate::result_view;
use crate::server::{default_config, ServerConfig, ServerConfigView};
use crate::text::{same_text, views};

verus! {

/// The configuration that arguments make of another one. Of an option that is given twice
/// the later one counts.
pub open spec fn configured(args: Seq<Seq<char>>, config: ServerConfigView) -> Result<
    ServerConfigView,
    Seq<char>,
>
    decreases args.len(),
{
    if args.len() == 0 {
        Ok(config)
    } else {
        let flag = args[0];
        if flag == "--addr"@ {
            if args.len() == 1 {
                Err("--addr 缺少 IP:PORT"@)
            } else {
                configured(args.skip(2), ServerConfigView { address: args[1], ..config })
            }
        } else if flag == "--data-dir"@ {
            if args.len() == 1 {
                Err("--data-dir 缺少 PATH"@)
            } else {
                configured(args.skip(2), ServerConfigView { data_dir: args[1], ..config })
            }
        } else if flag == "--checkpoint-after"@ {
            if args.len() == 1 {
                Err("--checkpoint-after 缺少非负整数"@)
            } else {
                match parsed(args[1], 10, u64::MAX as nat) {
                    None => Err("--checkpoint-after 必须是非负整数"@),
                    Some(count) => configured(
                        args.skip(2),
                        ServerConfigView { checkpoint_after_writes: count as u64, ..config },
                    ),
                }
            }
        } else {
            Err("未知参数："@ + flag)
        }
    }
}

/// Reads the arguments of the program.
pub fn parse_args(args: Vec<String>) -> (result: Result<ServerConfig, String>)
    ensures
        result_view(result) == configured(views(args@), default_config()),
{
    let ghost all = views(args@);
    assert(all.skip(0) =~= all);
    let mut config = ServerConfig::default();
    let mut i: usize = 0;
    while i < args.len()
        invariant
            i <= args@.len(),
            all == views(args@),
            configured(all, default_config()) == configured(all.skip(i as int), config@),
        decreases args@.len() - i,
    {
        let ghost rest = all.skip(i as int);
        assert(rest[0] == args@[i as int]@);
        let flag = args[i].as_str();
        let has_value: bool = args.len() - i >= 2;
        proof {
            if has_value {
                assert(rest[1] == args@[i + 1]@);
                assert(rest.skip(2) =~= all.skip(i + 2));
            }
        }
        if same_text(flag, "--addr") {
            if !has_value {
                return Err("--addr 缺少 IP:PORT".to_owned());
            }
            config.address = args[i + 1].clone();
        } else if same_text(flag, "--data-dir") {
            if !has_value {
                return Err("--data-dir 缺少 PATH".to_owned());
            }
            config.data_dir = args[i + 1].clone();
        } else if same_text(flag, "--checkpoint-after") {
            if !has_value {
                return Err("--checkpoint-after 缺少非负整数".to_owned());
            }
            match parse_number_text(args[i + 1].as_str(), 10, u64::MAX) {
                Some(count) => {
                    config.checkpoint_after_writes = count;
                },
                None => {
                    return Err("--checkpoint-after 必须是非负整数".to_owned());
                },
            }
        } else {
            let mut message = "未知参数：".to_owned();
            message.append(flag);
            return Err(message);
        }
        i += 2;
    }
    Ok(config)
}

proof fn lemma_configured_in_turn(
    args: Seq<Seq<char>>,
    more: Seq<Seq<char>>,
    config: ServerConfigView,
)
    requires
        configured(args, config) is Ok,
    ensures
        configured(args + more, config) == configured(more, configured(args, config)->Ok_0),
    decreases args.len(),
{
    if args.len() == 0 {
        assert(args + more =~= more);
    } else {
        let flag = args[0];
        let next = if flag == "--addr"@ {
            ServerConfigView { address: args[1], ..config }
        } else if flag == "--data-dir"@ {
            ServerConfigView { data_dir: args[1], ..config }
        } else {
            ServerConfigView {
                checkpoint_after_writes: parsed(args[1], 10, u64::MAX as nat)->0 as u64,
                ..config
            }
        };
        assert(args.len() >= 2);
        lemma_configured_in_turn(args.skip(2), more, next);
        assert((args + more).skip(2) =~= args.skip(2) + more);
        lemma_flags();
    }
}

proof fn lemma_flags()
    ensures
        "--addr"@ != "--data-dir"@,
        "--addr"@ != "--checkpoint-after"@,
        "--data-dir"@ != "--checkpoint-after"@,
{
    reveal_strlit("--addr");
    reveal_strlit("--data-dir");
    reveal_strlit("--checkpoint-after");
    assert("--addr"@.len() != "--data-dir"@.len());
    assert("--addr"@.len() != "--checkpoint-after"@.len());
    assert("--data-dir"@.len() != "--checkpoint-after"@.len());
}

/// An option behind others counts: it sets what it is for, whatever was given before it, and
/// keeps the rest. Without arguments nothing is set.
pub proof fn law_later_option_counts(
    args: Seq<Seq<char>>,
    config: ServerConfigView,
    value: Seq<char>,
    count: u64,
)
    requires
        configured(args, config) is Ok,
    ensures
        ({
            let before = configured(args, config)->Ok_0;
            let with_address = configured(args + seq!["--addr"@, value], config);
            let with_dir = configured(args + seq!["--data-dir"@, value], config);
            let with_count = configured(
                args + seq!["--checkpoint-after"@, decimal(count as nat)],
                config,
            );
            &&& with_address is Ok && with_dir is Ok && with_count is Ok
            &&& with_address->Ok_0.address == value
            &&& with_address->Ok_0.data_dir == before.data_dir
            &&& with_address->Ok_0.checkpoint_after_writes == before.checkpoint_after_writes
            &&& with_dir->Ok_0.data_dir == value
            &&& with_dir->Ok_0.address == before.address
            &&& with_dir->Ok_0.checkpoint_after_writes == before.checkpoint_after_writes
            &&& with_count->Ok_0.checkpoint_after_writes == count
            &&& with_count->Ok_0.address == before.address
            &&& with_count->Ok_0.data_dir == before.data_dir
        }),
        configured(Seq::empty(), config) == Ok::<_, Seq<char>>(config),
{
    let before = configured(args, config)->Ok_0;
    lemma_flags();
    law_parse_of_decimal(count as nat, u64::MAX as nat);
    lemma_one_option("--addr"@, value, before);
    lemma_one_option("--data-dir"@, value, before);
    lemma_one_option("--checkpoint-after"@, decimal(count as nat), before);
    lemma_configured_in_turn(args, seq!["--addr"@, value], config);
    lemma_configured_in_turn(args, seq!["--data-dir"@, value], config);
    lemma_configured_in_turn(
        args,
        seq!["--checkpoint-after"@, decimal(count as nat)],
        config,
    );
}

proof fn lemma_one_option(flag: Seq<char>, value: Seq<char>, config: ServerConfigView)
    ensures
        ({
            let result = configured(seq![flag, value], config);
            let number = parsed(value, 10, u64::MAX as nat);
            &&& flag == "--addr"@ ==> result == Ok::<_, Seq<char>>(
                ServerConfigView { address: value, ..config },
            )
            &&& flag == "--data-dir"@ ==> result == Ok::<_, Seq<char>>(
                ServerConfigView { data_dir: value, ..config },
            )
            &&& flag == "--checkpoint-after"@ && number is Some ==> result == Ok::<_, Seq<char>>(
                ServerConfigView { checkpoint_after_writes: number->0 as u64, ..config },
            )
            &&& flag == "--checkpoint-after"@ && number is None ==> result == Err::<
                ServerConfigView,
                _,
            >("--checkpoint-after 必须是非负整数"@)
        }),
{
    lemma_flags();
    let pair = seq![flag, value];
    assert(pair.skip(2) =~= Seq::empty());
    reveal_with_fuel(configured, 2);
}

/// What is refused, behind options that are not: an option without its value, a threshold that
/// is no number, and an option that is not known, which the message names.
pub proof fn law_which_arguments_are_refused(
    args: Seq<Seq<char>>,
    config: ServerConfigView,
    flag: Seq<char>,
    value: Seq<char>,
)
    requires
        configured(args, config) is Ok,
    ensures
        configured(args + seq![flag], config) is Err,
        ({
            let message = configured(args + seq![flag], config)->Err_0;
            flag.is_prefix_of(message) || flag.is_suffix_of(message)
        }),
        parsed(value, 10, u64::MAX as nat) is None ==> configured(
            args + seq!["--checkpoint-after"@, value],
            config,
        ) is Err,
        flag != "--addr"@ && flag != "--data-dir"@ && flag != "--checkpoint-after"@ ==> {
            let result = configured(args + seq![flag, value], config);
            result is Err && flag.is_suffix_of(result->Err_0)
        },
{
    let before = configured(args, config)->Ok_0;
    lemma_configured_in_turn(args, seq![flag], config);
    lemma_configured_in_turn(args, seq!["--checkpoint-after"@, value], config);
    lemma_configured_in_turn(args, seq![flag, value], config);
    lemma_one_option("--checkpoint-after"@, value, before);
    reveal_strlit("--addr");
    reveal_strlit("--addr 缺少 IP:PORT");
    reveal_strlit("--data-dir");
    reveal_strlit("--data-dir 缺少 PATH");
    reveal_strlit("--checkpoint-after");
    reveal_strlit("--checkpoint-after 缺少非负整数");
    assert("--addr 缺少 IP:PORT"@.take(6) =~= "--addr"@);
    assert("--data-dir 缺少 PATH"@.take(10) =~= "--data-dir"@);
    assert("--checkpoint-after 缺少非负整数"@.take(18) =~= "--checkpoint-after"@);
    let message = "未知参数："@ + flag;
    assert(message.skip(message.len() - flag.len()) =~= flag);
}

/// Without arguments the server listens on this machine, keeps its data in `data` and makes a
/// checkpoint after a thousand mutations.
pub proof fn law_default_server()
    ensures
        configured(Seq::empty(), default_config()) matches Ok(config) && config.address
            == "127.0.0.1:7878"@ && config.data_dir == "data"@ && config.checkpoint_after_writes
            == 1_000,
{
}

} // verus!
