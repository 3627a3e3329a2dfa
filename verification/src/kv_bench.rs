//! The benchmark client: its options, its schedule, its statistics and its table.
//!
//! All clients first load their keys, then warm up, and then overwrite keys at a fixed rate.
//! A request is measured from the moment at which it was due, so that the time it waits
//! behind slow ones counts too.

use vstd::prelude::*;

use crate::client::{law_leading_digits_are_near, leading_digits, leading_digits_of};
use crate::domain::CommandView;
use crate::number::{
    decimal, decimal_text, law_decimal_form, law_padded_decimal, law_parse_of_decimal,
    padded_decimal, padded_decimal_text, parse_number_text, parsed,
};
use crate::protocol::{
    law_names_lead_to_their_requests, law_requests_take_their_arguments, request_of_words,
    ProtocolErrorView, RequestView,
};
use crate::result_view;
use crate::text::{
    is_white_space, join, law_split_of_join, law_trimming_the_end, law_words_of_join, repeated,
    same_text, split, trim_text_end, trimmed_end, upper, views, words,
};

verus! {

// ---------------------------------------------------------------------------------------
// Options
// ---------------------------------------------------------------------------------------

/// The options of a run.
#[derive(Debug, Clone, PartialEq, Eq)]
pub struct Config {
    pub address: String,
    pub clients: usize,
    pub key_count: usize,
    pub value_size: usize,
    pub warmup_seconds: u64,
    pub duration_seconds: u64,
    pub rate: u64,
    pub label: String,
    pub output: String,
}

/// The options of a run over character sequences.
pub ghost struct ConfigView {
    pub address: Seq<char>,
    pub clients: usize,
    pub key_count: usize,
    pub value_size: usize,
    pub warmup_seconds: u64,
    pub duration_seconds: u64,
    pub rate: u64,
    pub label: Seq<char>,
    pub output: Seq<char>,
}

impl View for Config {
    type V = ConfigView;

    open spec fn view(&self) -> ConfigView {
        ConfigView {
            address: self.address@,
            clients: self.clients,
            key_count: self.key_count,
            value_size: self.value_size,
            warmup_seconds: self.warmup_seconds,
            duration_seconds: self.duration_seconds,
            rate: self.rate,
            label: self.label@,
            output: self.output@,
        }
    }
}

/// The options without any argument.
pub open spec fn default_options() -> ConfigView {
    ConfigView {
        address: "127.0.0.1:7878"@,
        clients: 32,
        key_count: 50_000,
        value_size: 1_024,
        warmup_seconds: 10,
        duration_seconds: 30,
        rate: 60_000,
        label: "unknown"@,
        output: "../results/benchmark.csv"@,
    }
}

impl Default for Config {
    fn default() -> (config: Config)
        ensures
            config@ == default_options(),
    {
        Config {
            address: "127.0.0.1:7878".to_owned(),
            clients: 32,
            key_count: 50_000,
            value_size: 1_024,
            warmup_seconds: 10,
            duration_seconds: 30,
            rate: 60_000,
            label: "unknown".to_owned(),
            output: "../results/benchmark.csv".to_owned(),
        }
    }
}

/// The options after one flag with its value.
pub open spec fn with_option(config: ConfigView, flag: Seq<char>, value: Seq<char>) -> Result<
    ConfigView,
    Seq<char>,
> {
    let size = parsed(value, 10, usize::MAX as nat);
    let number = parsed(value, 10, u64::MAX as nat);
    let bad = Err::<ConfigView, Seq<char>>(flag + " 必须是合法非负整数"@);
    if flag == "--addr"@ {
        Ok(ConfigView { address: value, ..config })
    } else if flag == "--clients"@ {
        match size {
            Some(n) => Ok(ConfigView { clients: n as usize, ..config }),
            None => bad,
        }
    } else if flag == "--keys"@ {
        match size {
            Some(n) => Ok(ConfigView { key_count: n as usize, ..config }),
            None => bad,
        }
    } else if flag == "--value-size"@ {
        match size {
            Some(n) => Ok(ConfigView { value_size: n as usize, ..config }),
            None => bad,
        }
    } else if flag == "--warmup-seconds"@ {
        match number {
            Some(n) => Ok(ConfigView { warmup_seconds: n as u64, ..config }),
            None => bad,
        }
    } else if flag == "--duration-seconds"@ {
        match number {
            Some(n) => Ok(ConfigView { duration_seconds: n as u64, ..config }),
            None => bad,
        }
    } else if flag == "--rate"@ {
        match number {
            Some(n) => Ok(ConfigView { rate: n as u64, ..config }),
            None => bad,
        }
    } else if flag == "--label"@ {
        Ok(ConfigView { label: value, ..config })
    } else if flag == "--output"@ {
        Ok(ConfigView { output: value, ..config })
    } else {
        Err("未知参数："@ + flag)
    }
}

/// The options after all arguments, which are pairs of a flag and a value.
pub open spec fn with_options(config: ConfigView, args: Seq<Seq<char>>) -> Result<
    ConfigView,
    Seq<char>,
>
    decreases args.len(),
{
    if args.len() == 0 {
        Ok(config)
    } else if args.len() == 1 {
        Err(args[0] + " 缺少参数值"@)
    } else {
        match with_option(config, args[0], args[1]) {
            Err(message) => Err(message),
            Ok(next) => with_options(next, args.skip(2)),
        }
    }
}

/// Whether a run with these options makes sense, or why not.
pub open spec fn usable(config: ConfigView) -> Result<(), Seq<char>> {
    if config.clients == 0 {
        Err("--clients 必须大于 0"@)
    } else if config.key_count < config.clients {
        Err("--keys 不能少于客户端数量"@)
    } else if config.value_size == 0 {
        Err("--value-size 必须大于 0"@)
    } else if config.duration_seconds == 0 {
        Err("--duration-seconds 必须大于 0"@)
    } else if config.rate == 0 {
        Err("--rate 必须大于 0"@)
    } else {
        Ok(())
    }
}

/// The options that the arguments name.
pub open spec fn options_of(args: Seq<Seq<char>>) -> Result<ConfigView, Seq<char>> {
    match with_options(default_options(), args) {
        Err(message) => Err(message),
        Ok(config) => match usable(config) {
            Err(message) => Err(message),
            Ok(_) => Ok(config),
        },
    }
}

/// The number that the value of a flag stands for.
pub fn parse_number(flag: &str, value: &str, max: u64) -> (result: Result<u64, String>)
    ensures
        match parsed(value@, 10, max as nat) {
            Some(n) => result is Ok && result->Ok_0 as nat == n,
            None => result is Err && result->Err_0@ == flag@ + " 必须是合法非负整数"@,
        },
        result is Ok ==> result->Ok_0 <= max,
{
    match parse_number_text(value, 10, max) {
        Some(n) => Ok(n),
        None => {
            let mut message = flag.to_owned();
            message.append(" 必须是合法非负整数");
            Err(message)
        },
    }
}

fn parse_size(flag: &str, value: &str) -> (result: Result<usize, String>)
    ensures
        match parsed(value@, 10, usize::MAX as nat) {
            Some(n) => result is Ok && result->Ok_0 as nat == n,
            None => result is Err && result->Err_0@ == flag@ + " 必须是合法非负整数"@,
        },
{
    match parse_number(flag, value, usize::MAX as u64) {
        Ok(n) => Ok(n as usize),
        Err(message) => Err(message),
    }
}

fn set_option(config: &mut Config, flag: &str, value: &String) -> (result: Result<(), String>)
    ensures
        match with_option(old(config)@, flag@, value@) {
            Ok(next) => result is Ok && final(config)@ == next,
            Err(message) => result is Err && result->Err_0@ == message,
        },
{
    if same_text(flag, "--addr") {
        config.address = value.clone();
    } else if same_text(flag, "--clients") {
        match parse_size(flag, value.as_str()) {
            Ok(n) => {
                config.clients = n;
            },
            Err(message) => {
                return Err(message);
            },
        }
    } else if same_text(flag, "--keys") {
        match parse_size(flag, value.as_str()) {
            Ok(n) => {
                config.key_count = n;
            },
            Err(message) => {
                return Err(message);
            },
        }
    } else if same_text(flag, "--value-size") {
        match parse_size(flag, value.as_str()) {
            Ok(n) => {
                config.value_size = n;
            },
            Err(message) => {
                return Err(message);
            },
        }
    } else if same_text(flag, "--warmup-seconds") {
        match parse_number(flag, value.as_str(), u64::MAX) {
            Ok(n) => {
                config.warmup_seconds = n;
            },
            Err(message) => {
                return Err(message);
            },
        }
    } else if same_text(flag, "--duration-seconds") {
        match parse_number(flag, value.as_str(), u64::MAX) {
            Ok(n) => {
                config.duration_seconds = n;
            },
            Err(message) => {
                return Err(message);
            },
        }
    } else if same_text(flag, "--rate") {
        match parse_number(flag, value.as_str(), u64::MAX) {
            Ok(n) => {
                config.rate = n;
            },
            Err(message) => {
                return Err(message);
            },
        }
    } else if same_text(flag, "--label") {
        config.label = value.clone();
    } else if same_text(flag, "--output") {
        config.output = value.clone();
    } else {
        let mut message = "未知参数：".to_owned();
        message.append(flag);
        return Err(message);
    }
    Ok(())
}

/// Reads the arguments of the program.
pub fn parse_args(args: Vec<String>) -> (result: Result<Config, String>)
    ensures
        result_view(result) == options_of(views(args@)),
{
    let ghost all = views(args@);
    assert(all.skip(0) =~= all);
    let mut config = Config::default();
    let mut i: usize = 0;
    while i < args.len()
        invariant
            i <= args@.len(),
            all == views(args@),
            with_options(default_options(), all) == with_options(config@, all.skip(i as int)),
        decreases args@.len() - i,
    {
        let ghost rest = all.skip(i as int);
        assert(rest[0] == args@[i as int]@);
        if args.len() - i < 2 {
            let mut message = args[i].clone();
            message.append(" 缺少参数值");
            return Err(message);
        }
        proof {
            assert(rest[1] == args@[i + 1]@);
            assert(rest.skip(2) =~= all.skip(i + 2));
        }
        match set_option(&mut config, args[i].as_str(), &args[i + 1]) {
            Ok(()) => {},
            Err(message) => {
                return Err(message);
            },
        }
        i += 2;
    }
    if config.clients == 0 {
        return Err("--clients 必须大于 0".to_owned());
    }
    if config.key_count < config.clients {
        return Err("--keys 不能少于客户端数量".to_owned());
    }
    if config.value_size == 0 {
        return Err("--value-size 必须大于 0".to_owned());
    }
    if config.duration_seconds == 0 {
        return Err("--duration-seconds 必须大于 0".to_owned());
    }
    if config.rate == 0 {
        return Err("--rate 必须大于 0".to_owned());
    }
    Ok(config)
}

// ---------------------------------------------------------------------------------------
// The work of one client
// ---------------------------------------------------------------------------------------

/// Every `step`-th number from `first` on, below `end`.
pub open spec fn strided(first: nat, step: nat, end: nat) -> Seq<nat>
    decreases (if first < end { (end - first) as nat } else { 0 }),
{
    if first >= end || step == 0 {
        Seq::empty()
    } else {
        seq![first] + strided(first + step, step, end)
    }
}

/// The command that writes a key.
pub open spec fn set_command(key_id: nat, value_size: nat) -> Seq<char> {
    "SET key-"@ + padded_decimal(key_id, 8) + " "@ + repeated('x', value_size) + "\n"@
}

/// The commands of one client: one for each of its keys.
pub open spec fn client_commands(client_id: nat, config: ConfigView) -> Seq<Seq<char>> {
    let ids = strided(client_id, config.clients as nat, config.key_count as nat);
    Seq::new(ids.len(), |i: int| set_command(ids[i], config.value_size as nat))
}

/// The commands of one client, or that it has none.
pub open spec fn worker_plan(client_id: nat, config: ConfigView) -> Result<
    Seq<Seq<char>>,
    Seq<char>,
> {
    let commands = client_commands(client_id, config);
    if commands.len() == 0 {
        Err("客户端没有可用的键"@)
    } else {
        Ok(commands)
    }
}

fn filler(size: usize) -> (value: String)
    ensures
        value@ == repeated('x', size as nat),
{
    let mut value = String::new();
    let mut i: usize = 0;
    assert(value@ =~= repeated('x', 0));
    while i < size
        invariant
            i <= size,
            value@ == repeated('x', i as nat),
        decreases size - i,
    {
        value.push('x');
        assert(repeated('x', (i + 1) as nat) =~= repeated('x', i as nat).push('x'));
        i += 1;
    }
    value
}

/// The commands that one client sends again and again.
pub fn worker_commands(client_id: usize, config: &Config) -> (result: Result<Vec<String>, String>)
    requires
        config.clients > 0,
    ensures
        match result {
            Ok(commands) => worker_plan(client_id as nat, config@) == Ok::<_, Seq<char>>(
                views(commands@),
            ),
            Err(message) => worker_plan(client_id as nat, config@) == Err::<Seq<Seq<char>>, _>(
                message@,
            ),
        },
{
    let value = filler(config.value_size);
    let ghost all = client_commands(client_id as nat, config@);
    let ghost ids = strided(client_id as nat, config.clients as nat, config.key_count as nat);
    let mut commands: Vec<String> = Vec::new();
    let mut key_id: usize = client_id;
    let mut more: bool = key_id < config.key_count;
    assert(views(commands@) =~= all.take(0));
    assert(ids.skip(0) =~= ids);
    while more
        invariant
            config.clients > 0,
            value@ == repeated('x', config.value_size as nat),
            all == client_commands(client_id as nat, config@),
            ids == strided(client_id as nat, config.clients as nat, config.key_count as nat),
            commands@.len() <= ids.len(),
            views(commands@) == all.take(commands@.len() as int),
            more ==> key_id < config.key_count && ids.skip(commands@.len() as int) == strided(
                key_id as nat,
                config.clients as nat,
                config.key_count as nat,
            ),
            !more ==> ids.skip(commands@.len() as int).len() == 0,
        decreases (if more { config.key_count - key_id } else { 0 }),
    {
        let ghost before = commands@;
        let ghost rest = ids.skip(before.len() as int);
        let mut command = "SET key-".to_owned();
        command.append(padded_decimal_text(key_id as u128, 8).as_str());
        command.append(" ");
        command.append(value.as_str());
        command.append("\n");
        commands.push(command);
        proof {
            assert(rest.len() > 0 && rest[0] == key_id);
            assert(rest[0] == ids[before.len() as int]);
            assert(all[before.len() as int] == set_command(
                key_id as nat,
                config.value_size as nat,
            ));
            assert(views(commands@) =~= views(before).push(all[before.len() as int]));
            assert(all.take(before.len() as int + 1) =~= all.take(before.len() as int).push(
                all[before.len() as int],
            ));
            let tail = strided(
                (key_id + config.clients) as nat,
                config.clients as nat,
                config.key_count as nat,
            );
            assert(rest == seq![key_id as nat] + tail);
            assert(rest.skip(1) =~= tail);
            assert(ids.skip(before.len() as int + 1) =~= rest.skip(1));
        }
        if config.key_count - key_id > config.clients {
            key_id = key_id + config.clients;
        } else {
            more = false;
        }
    }
    assert(all.take(commands@.len() as int) =~= all);
    if commands.len() == 0 {
        Err("客户端没有可用的键".to_owned())
    } else {
        Ok(commands)
    }
}

proof fn lemma_strided(first: nat, step: nat, end: nat, n: nat)
    requires
        step > 0,
    ensures
        strided(first, step, end).contains(n) <==> first <= n < end && (n - first) % (step as int)
            == 0,
    decreases (if first < end { (end - first) as nat } else { 0 }),
{
    let all = strided(first, step, end);
    if first < end {
        let rest = strided(first + step, step, end);
        lemma_strided(first + step, step, end, n);
        assert(all == seq![first] + rest);
        if n == first {
            assert(all[0] == n);
        } else if rest.contains(n) {
            let i = choose|i: int| 0 <= i < rest.len() && rest[i] == n;
            assert(all[i + 1] == n);
        }
        if all.contains(n) && n != first {
            let i = choose|i: int| 0 <= i < all.len() && all[i] == n;
            assert(rest[i - 1] == n);
        }
        if n >= first + step {
            vstd::arithmetic::div_mod::lemma_mod_sub_multiples_vanish(n - first, step as int);
            assert((n - first) % (step as int) == (n - (first + step)) % (step as int));
        } else if n > first {
            vstd::arithmetic::div_mod::lemma_small_mod((n - first) as nat, step);
        } else if n == first {
            assert((n - first) % (step as int) == 0);
        }
    }
}

/// Every number below the end belongs to exactly one client, that of its remainder. So each
/// key is written by one client only, and each request is sent by one client only.
pub proof fn law_clients_share_without_overlap(client_id: nat, clients: nat, end: nat, n: nat)
    requires
        client_id < clients,
    ensures
        strided(client_id, clients, end).contains(n) <==> n < end && n % clients == client_id,
{
    lemma_strided(client_id, clients, end, n);
    if n >= client_id {
        let k = (n - client_id) / (clients as int);
        let r = (n - client_id) % (clients as int);
        vstd::arithmetic::div_mod::lemma_fundamental_div_mod(n - client_id, clients as int);
        if r == 0 {
            vstd::arithmetic::div_mod::lemma_fundamental_div_mod_converse(
                n as int,
                clients as int,
                k,
                client_id as int,
            );
        }
        if n % clients == client_id {
            vstd::arithmetic::div_mod::lemma_fundamental_div_mod(n as int, clients as int);
            let q = n as int / (clients as int);
            assert(n - client_id == clients * q);
            vstd::arithmetic::div_mod::lemma_fundamental_div_mod_converse(
                n - client_id,
                clients as int,
                q,
                0,
            );
        }
    } else {
        vstd::arithmetic::div_mod::lemma_small_mod(n, clients);
    }
}

/// That the server accepted a write, or what it said instead.
pub open spec fn accepted(text: Seq<char>) -> Result<(), Seq<char>> {
    if trimmed_end(text) == "OK"@ {
        Ok(())
    } else {
        Err("服务器返回异常响应："@ + trimmed_end(text))
    }
}

/// That the server accepted a write, or what it said instead.
pub fn check_response(text: &str) -> (result: Result<(), String>)
    ensures
        result_view(result) == accepted(text@),
{
    let answer = trim_text_end(text);
    if same_text(answer.as_str(), "OK") {
        Ok(())
    } else {
        let mut message = "服务器返回异常响应：".to_owned();
        message.append(answer.as_str());
        Err(message)
    }
}

// ---------------------------------------------------------------------------------------
// Schedule
// ---------------------------------------------------------------------------------------

/// When a request is due, in nanoseconds after the start of the measurement.
pub open spec fn due_nanos(request: nat, rate: nat) -> nat {
    (request * 1_000_000_000 / rate) % 0x1_0000_0000_0000_0000
}

/// A request that is due.
#[derive(Debug, Clone, Copy, PartialEq, Eq)]
pub struct DueRequest {
    /// When it is due, in nanoseconds after the start.
    pub offset_nanos: u64,
    /// The second of the measurement in which that is.
    pub second: u64,
    /// The command to send.
    pub command_index: usize,
}

/// The requests of one client that are still to be sent.
#[derive(Debug)]
pub struct Schedule {
    clients: u64,
    rate: u64,
    total_requests: u64,
    request_number: u64,
    command_count: usize,
    command_index: usize,
}

/// The state of a schedule.
pub ghost struct ScheduleView {
    pub clients: u64,
    pub rate: u64,
    pub total_requests: u64,
    pub request_number: u64,
    pub command_count: usize,
    pub command_index: usize,
}

impl View for Schedule {
    type V = ScheduleView;

    closed spec fn view(&self) -> ScheduleView {
        ScheduleView {
            clients: self.clients,
            rate: self.rate,
            total_requests: self.total_requests,
            request_number: self.request_number,
            command_count: self.command_count,
            command_index: self.command_index,
        }
    }
}

/// The place of the next command: the commands are sent in turn.
pub open spec fn next_place(index: usize, count: usize) -> usize {
    ((index + 1) % (count as int)) as usize
}

/// The place of the next command: the commands are sent in turn.
pub fn next_command(index: usize, count: usize) -> (next: usize)
    requires
        index < count,
    ensures
        next == next_place(index, count),
        next == (index + 1) % (count as int),
        next < count,
{
    (index + 1) % count
}

/// The schedule of one client: its requests are those whose number leaves the number of the
/// client when divided by the number of clients.
pub open spec fn scheduled(
    client_id: usize,
    config: ConfigView,
    command_index: usize,
    command_count: usize,
) -> Result<ScheduleView, Seq<char>> {
    if config.rate * config.duration_seconds > u64::MAX {
        Err("请求总数溢出"@)
    } else {
        Ok(
            ScheduleView {
                clients: config.clients as u64,
                rate: config.rate,
                total_requests: (config.rate * config.duration_seconds) as u64,
                request_number: client_id as u64,
                command_count,
                command_index,
            },
        )
    }
}

/// The next request of a schedule, as long as there is one.
pub open spec fn due_request(schedule: ScheduleView) -> Option<DueRequest> {
    if schedule.request_number >= schedule.total_requests {
        None
    } else {
        let offset = due_nanos(schedule.request_number as nat, schedule.rate as nat);
        Some(
            DueRequest {
                offset_nanos: offset as u64,
                second: (offset / 1_000_000_000) as u64,
                command_index: schedule.command_index,
            },
        )
    }
}

/// The schedule after a request was sent. There is no request behind the largest number.
pub open spec fn advanced(schedule: ScheduleView) -> ScheduleView {
    ScheduleView {
        request_number: if schedule.request_number + schedule.clients <= u64::MAX {
            (schedule.request_number + schedule.clients) as u64
        } else {
            u64::MAX
        },
        command_index: next_place(schedule.command_index, schedule.command_count),
        ..schedule
    }
}

impl Schedule {
    #[verifier::type_invariant]
    spec fn well_formed(self) -> bool {
        &&& self.rate > 0
        &&& self.command_index < self.command_count
    }

    /// The schedule of one client. Its requests are those whose number leaves the number of
    /// the client when divided by the number of clients.
    pub fn new(client_id: usize, config: &Config, command_index: usize, command_count: usize) -> (
    result: Result<Schedule, String>)
        requires
            config.rate > 0,
            command_index < command_count,
        ensures
            result_view(result) == scheduled(client_id, config@, command_index, command_count),
    {
        match config.rate.checked_mul(config.duration_seconds) {
            None => Err("请求总数溢出".to_owned()),
            Some(total_requests) => Ok(
                Schedule {
                    clients: config.clients as u64,
                    rate: config.rate,
                    total_requests,
                    request_number: client_id as u64,
                    command_count,
                    command_index,
                },
            ),
        }
    }

    /// The next request, as long as there is one.
    #[must_use]
    pub fn next(&self) -> (due: Option<DueRequest>)
        ensures
            due == due_request(self@),
            self@.command_index < self@.command_count,
    {
        proof {
            use_type_invariant(self);
        }
        if self.request_number >= self.total_requests {
            return None;
        }
        let nanos: u128 = (self.request_number as u128) * 1_000_000_000 / (self.rate as u128);
        let offset_nanos: u64 = (nanos % 0x1_0000_0000_0000_0000) as u64;
        Some(
            DueRequest {
                offset_nanos,
                second: offset_nanos / 1_000_000_000,
                command_index: self.command_index,
            },
        )
    }

    /// Goes on to the request after the one that was sent. There is no request behind the
    /// largest number.
    pub fn advance(&mut self)
        ensures
            final(self)@ == advanced(old(self)@),
    {
        proof {
            use_type_invariant(&*self);
        }
        let next: usize = next_command(self.command_index, self.command_count);
        self.command_index = next;
        self.request_number = if u64::MAX - self.request_number >= self.clients {
            self.request_number + self.clients
        } else {
            u64::MAX
        };
    }
}

/// A request that is due earlier has the smaller number, and every request of the
/// measurement is due within its duration, so that its sample belongs to one of its
/// seconds. The duration must be one that a number of nanoseconds can hold.
pub proof fn law_requests_are_due_within_the_duration(
    earlier: nat,
    later: nat,
    rate: nat,
    duration_seconds: nat,
)
    requires
        rate > 0,
        earlier <= later < rate * duration_seconds,
        duration_seconds * 1_000_000_000 <= 0x1_0000_0000_0000_0000,
    ensures
        due_nanos(earlier, rate) <= due_nanos(later, rate),
        due_nanos(later, rate) / 1_000_000_000 < duration_seconds,
{
    let x = later * 1_000_000_000;
    let y = earlier * 1_000_000_000;
    assert(x / rate < duration_seconds * 1_000_000_000) by (nonlinear_arith)
        requires
            x == later * 1_000_000_000,
            later < rate * duration_seconds,
            rate > 0,
    ;
    assert(y / rate <= x / rate) by (nonlinear_arith)
        requires
            y <= x,
            rate > 0,
    ;
    vstd::arithmetic::div_mod::lemma_small_mod(x / rate, 0x1_0000_0000_0000_0000);
    vstd::arithmetic::div_mod::lemma_small_mod(y / rate, 0x1_0000_0000_0000_0000);
}

// ---------------------------------------------------------------------------------------
// Samples and statistics
// ---------------------------------------------------------------------------------------

/// The samples of each second.
pub open spec fn sample_views(samples: Seq<Vec<u64>>) -> Seq<Seq<u64>> {
    Seq::new(samples.len(), |i: int| samples[i]@)
}

/// The samples of two clients together, second by second. Seconds that the first does not
/// have are left out.
pub open spec fn merged(all: Seq<Seq<u64>>, one: Seq<Seq<u64>>) -> Seq<Seq<u64>> {
    Seq::new(
        all.len(),
        |i: int|
            if i < one.len() {
                all[i] + one[i]
            } else {
                all[i]
            },
    )
}

/// The samples of all seconds one after the other.
pub open spec fn all_samples(samples: Seq<Seq<u64>>) -> Seq<u64>
    decreases samples.len(),
{
    if samples.len() == 0 {
        Seq::empty()
    } else {
        all_samples(samples.drop_last()) + samples.last()
    }
}

/// The sum of samples.
pub open spec fn sum(samples: Seq<u64>) -> nat
    decreases samples.len(),
{
    if samples.len() == 0 {
        0
    } else {
        sum(samples.drop_last()) + samples.last() as nat
    }
}

/// Whether samples stand in ascending order.
pub open spec fn ascending(samples: Seq<u64>) -> bool {
    forall|i: int, j: int| 0 <= i <= j < samples.len() ==> samples[i] <= samples[j]
}

/// How many of the samples are at or below the percentile, in thousandths, rounded up.
pub open spec fn percentile_rank(count: nat, permille: nat) -> nat {
    (permille * count + 999) / 1_000
}

/// The percentile of samples in ascending order, in thousandths.
pub open spec fn percentile(sorted: Seq<u64>, permille: nat) -> u64 {
    let rank = percentile_rank(sorted.len(), permille);
    if sorted.len() == 0 {
        0
    } else if rank == 0 {
        sorted[0]
    } else if rank <= sorted.len() {
        sorted[rank - 1]
    } else {
        sorted.last()
    }
}

/// The statistics of a number of samples.
#[derive(Debug, Clone, Copy, PartialEq, Eq)]
pub struct LatencyStats {
    pub requests: usize,
    pub average_us: u64,
    pub p50_us: u64,
    pub p95_us: u64,
    pub p99_us: u64,
    pub p999_us: u64,
    pub max_us: u64,
}

/// The statistics of samples in ascending order.
pub open spec fn stats_of(sorted: Seq<u64>) -> LatencyStats {
    LatencyStats {
        requests: sorted.len() as usize,
        average_us: if sorted.len() == 0 {
            0
        } else {
            (sum(sorted) / sorted.len()) as u64
        },
        p50_us: percentile(sorted, 500),
        p95_us: percentile(sorted, 950),
        p99_us: percentile(sorted, 990),
        p999_us: percentile(sorted, 999),
        max_us: if sorted.len() == 0 {
            0
        } else {
            sorted.last()
        },
    }
}

/// Calls `sort_unstable` of a slice, which sorts the numbers in ascending order: afterwards
/// the slice holds the same numbers, each as often as before.
#[verifier::external_body]
fn sort_samples(samples: &mut Vec<u64>)
    ensures
        final(samples)@.to_multiset() == old(samples)@.to_multiset(),
        final(samples)@.len() == old(samples)@.len(),
        ascending(final(samples)@),
{
    samples.sort_unstable();
}

/// No sample yet, in each second of the measurement.
pub open spec fn no_samples(seconds: nat) -> Seq<Seq<u64>> {
    Seq::new(seconds, |i: int| Seq::<u64>::empty())
}

/// The samples after one was added to its second. A sample behind the last second is left out.
pub open spec fn recorded(samples: Seq<Seq<u64>>, second: u64, latency_us: u64) -> Seq<Seq<u64>> {
    if second < samples.len() {
        samples.update(second as int, samples[second as int].push(latency_us))
    } else {
        samples
    }
}

/// A number of microseconds, as far as it fits.
pub open spec fn fitting_micros(micros: u128) -> u64 {
    if micros <= u64::MAX {
        micros as u64
    } else {
        u64::MAX
    }
}

/// An empty list of samples for each second of the measurement.
#[must_use]
pub fn empty_samples(seconds: usize) -> (samples: Vec<Vec<u64>>)
    ensures
        sample_views(samples@) == no_samples(seconds as nat),
{
    let mut samples: Vec<Vec<u64>> = Vec::new();
    let mut i: usize = 0;
    while i < seconds
        invariant
            i <= seconds,
            samples@.len() == i,
            forall|k: int| 0 <= k < i ==> #[trigger] samples@[k]@ == Seq::<u64>::empty(),
        decreases seconds - i,
    {
        samples.push(Vec::new());
        i += 1;
    }
    assert(sample_views(samples@) =~= no_samples(seconds as nat));
    samples
}

/// Adds a sample to its second. A sample behind the last second is left out.
pub fn record_sample(samples: &mut Vec<Vec<u64>>, second: u64, latency_us: u64)
    ensures
        sample_views(final(samples)@) == recorded(
            sample_views(old(samples)@),
            second,
            latency_us,
        ),
{
    if second < samples.len() as u64 {
        let at: usize = second as usize;
        samples[at].push(latency_us);
    }
    assert(sample_views(samples@) =~= recorded(sample_views(old(samples)@), second, latency_us));
}

/// The latency of a request in microseconds, as far as it fits.
#[must_use]
pub fn latency_micros(micros: u128) -> (latency: u64)
    ensures
        latency == fitting_micros(micros),
{
    if micros <= u64::MAX as u128 {
        micros as u64
    } else {
        u64::MAX
    }
}

fn push_samples(all: &mut Vec<u64>, more: &Vec<u64>)
    ensures
        final(all)@ == old(all)@ + more@,
{
    let mut i: usize = 0;
    assert(old(all)@ + more@.take(0) =~= old(all)@);
    while i < more.len()
        invariant
            i <= more@.len(),
            all@ == old(all)@ + more@.take(i as int),
        decreases more@.len() - i,
    {
        all.push(more[i]);
        assert(old(all)@ + more@.take(i + 1) =~= (old(all)@ + more@.take(i as int)).push(
            more@[i as int],
        ));
        i += 1;
    }
    assert(more@.take(i as int) =~= more@);
}

/// Adds the samples of one client to those of all.
pub fn merge_samples(all: &mut Vec<Vec<u64>>, one: &Vec<Vec<u64>>)
    ensures
        sample_views(final(all)@) == merged(sample_views(old(all)@), sample_views(one@)),
{
    let ghost before = sample_views(all@);
    let ghost goal = merged(before, sample_views(one@));
    let mut i: usize = 0;
    while i < all.len() && i < one.len()
        invariant
            i <= all@.len(),
            i <= one@.len(),
            all@.len() == before.len(),
            goal == merged(before, sample_views(one@)),
            forall|k: int| 0 <= k < i ==> #[trigger] all@[k]@ == goal[k],
            forall|k: int| i <= k < all@.len() ==> #[trigger] all@[k]@ == before[k],
        decreases all@.len() - i,
    {
        push_samples(&mut all[i], &one[i]);
        i += 1;
    }
    assert(sample_views(all@) =~= goal);
}

/// The samples of all seconds one after the other.
#[must_use]
pub fn collect_samples(samples: &Vec<Vec<u64>>) -> (all: Vec<u64>)
    ensures
        all@ == all_samples(sample_views(samples@)),
{
    let ghost seconds = sample_views(samples@);
    let mut all: Vec<u64> = Vec::new();
    let mut i: usize = 0;
    assert(seconds.take(0) =~= Seq::empty());
    while i < samples.len()
        invariant
            i <= samples@.len(),
            seconds == sample_views(samples@),
            all@ == all_samples(seconds.take(i as int)),
        decreases samples@.len() - i,
    {
        push_samples(&mut all, &samples[i]);
        assert(seconds.take(i + 1).drop_last() =~= seconds.take(i as int));
        i += 1;
    }
    assert(seconds.take(i as int) =~= seconds);
    all
}

/// The percentile of samples in ascending order. It is given in thousandths, so that no
/// fraction is needed for the highest one.
#[must_use]
pub fn percentile_permille(samples: &Vec<u64>, permille: usize) -> (value: u64)
    ensures
        value == percentile(samples@, permille as nat),
{
    if samples.len() == 0 {
        return 0;
    }
    let count: u128 = samples.len() as u128;
    assert((permille as u128) * count + 999 <= u128::MAX) by (nonlinear_arith)
        requires
            permille <= u64::MAX,
            count <= u64::MAX,
    ;
    let rank: u128 = ((permille as u128) * count + 999) / 1_000;
    if rank == 0 {
        samples[0]
    } else if rank <= count {
        samples[(rank - 1) as usize]
    } else {
        samples[samples.len() - 1]
    }
}

/// Sorts samples and gives their statistics.
pub fn calculate_stats(samples: &mut Vec<u64>) -> (stats: LatencyStats)
    ensures
        final(samples)@.to_multiset() == old(samples)@.to_multiset(),
        ascending(final(samples)@),
        stats == stats_of(final(samples)@),
{
    sort_samples(samples);
    let mut total: u128 = 0;
    let mut i: usize = 0;
    let count: usize = samples.len();
    while i < count
        invariant
            i <= count == samples@.len(),
            total == sum(samples@.take(i as int)),
            total <= i * u64::MAX,
        decreases count - i,
    {
        assert(samples@.take(i + 1).drop_last() =~= samples@.take(i as int));
        assert(i * u64::MAX + u64::MAX <= u128::MAX) by (nonlinear_arith)
            requires
                i <= u64::MAX,
        ;
        total = total + samples[i] as u128;
        i += 1;
    }
    assert(samples@.take(i as int) =~= samples@);
    let average_us: u64 = if count == 0 {
        0
    } else {
        assert(total / (count as u128) <= u64::MAX) by (nonlinear_arith)
            requires
                total <= count * u64::MAX,
                count > 0,
        ;
        (total / (count as u128)) as u64
    };
    LatencyStats {
        requests: count,
        average_us,
        p50_us: percentile_permille(samples, 500),
        p95_us: percentile_permille(samples, 950),
        p99_us: percentile_permille(samples, 990),
        p999_us: percentile_permille(samples, 999),
        max_us: if count == 0 {
            0
        } else {
            samples[count - 1]
        },
    }
}

/// A percentile is a sample, at or below which stands the share of all samples that it is
/// named after; a higher percentile is not smaller, and none is above the largest sample.
pub proof fn law_percentiles(sorted: Seq<u64>, low: nat, high: nat)
    requires
        ascending(sorted),
        sorted.len() > 0,
        0 < low <= high <= 1_000,
    ensures
        percentile(sorted, low) <= percentile(sorted, high) <= sorted.last(),
        ({
            let rank = percentile_rank(sorted.len(), low);
            &&& 1 <= rank <= sorted.len()
            &&& 1_000 * rank >= low * sorted.len()
            &&& percentile(sorted, low) == sorted[rank - 1]
            &&& forall|i: int| 0 <= i < rank ==> sorted[i] <= percentile(sorted, low)
        }),
{
    let n = sorted.len();
    assert(low * n > 0 && low * n <= high * n && high * n <= 1_000 * n) by (nonlinear_arith)
        requires
            0 < low <= high <= 1_000,
            n > 0,
    ;
}

/// The average lies between the smallest and the largest sample.
pub proof fn law_average_is_between(sorted: Seq<u64>)
    requires
        ascending(sorted),
        sorted.len() > 0,
        sorted.len() <= usize::MAX,
    ensures
        sorted[0] <= stats_of(sorted).average_us <= sorted.last(),
{
    let n = sorted.len();
    let (least, most) = (sorted[0] as nat, sorted.last() as nat);
    lemma_sum_bounds(sorted, least, most);
    assert(least <= sum(sorted) / n <= most) by (nonlinear_arith)
        requires
            n * least <= sum(sorted) <= n * most,
            n > 0,
    ;
}

proof fn lemma_sum_bounds(samples: Seq<u64>, least: nat, most: nat)
    requires
        forall|i: int| 0 <= i < samples.len() ==> least <= #[trigger] samples[i] <= most,
    ensures
        samples.len() * least <= sum(samples) <= samples.len() * most,
    decreases samples.len(),
{
    if samples.len() > 0 {
        let rest = samples.drop_last();
        lemma_sum_bounds(rest, least, most);
        let last = samples[samples.len() - 1];
        assert(least <= last <= most);
        assert(samples.len() * least == rest.len() * least + least) by (nonlinear_arith)
            requires
                samples.len() == rest.len() + 1,
        ;
        assert(samples.len() * most == rest.len() * most + most) by (nonlinear_arith)
            requires
                samples.len() == rest.len() + 1,
        ;
    }
}

/// Merging loses no sample: all samples of two clients are those of the one and those of
/// the other.
pub proof fn law_merging_loses_nothing(all: Seq<Seq<u64>>, one: Seq<Seq<u64>>)
    requires
        all.len() == one.len(),
    ensures
        all_samples(merged(all, one)).to_multiset() == all_samples(all).to_multiset().add(
            all_samples(one).to_multiset(),
        ),
    decreases all.len(),
{
    let both = merged(all, one);
    if all.len() == 0 {
        assert(both =~= Seq::empty());
        assert(all_samples(both).to_multiset() =~= all_samples(all).to_multiset().add(
            all_samples(one).to_multiset(),
        )) by {
            broadcast use vstd::seq_lib::group_to_multiset_ensures;

            assert(Seq::<u64>::empty().to_multiset().len() == 0);
        }
    } else {
        let (a, b) = (all.drop_last(), one.drop_last());
        law_merging_loses_nothing(a, b);
        assert(both.drop_last() =~= merged(a, b));
        assert(both.last() == all.last() + one.last());
        vstd::seq_lib::lemma_multiset_commutative(all_samples(both.drop_last()), both.last());
        vstd::seq_lib::lemma_multiset_commutative(all.last(), one.last());
        vstd::seq_lib::lemma_multiset_commutative(all_samples(a), all.last());
        vstd::seq_lib::lemma_multiset_commutative(all_samples(b), one.last());
        assert(all_samples(both).to_multiset() =~= all_samples(all).to_multiset().add(
            all_samples(one).to_multiset(),
        ));
    }
}

// ---------------------------------------------------------------------------------------
// The table
// ---------------------------------------------------------------------------------------

/// The columns behind the throughput.
pub open spec fn latency_columns(stats: LatencyStats) -> Seq<char> {
    decimal(stats.average_us as nat) + ","@ + decimal(stats.p50_us as nat) + ","@ + decimal(
        stats.p95_us as nat,
    ) + ","@ + decimal(stats.p99_us as nat) + ","@ + decimal(stats.p999_us as nat) + ","@
        + decimal(stats.max_us as nat)
}

/// A row of the table.
pub open spec fn row(
    label: Seq<char>,
    scope: Seq<char>,
    timestamp_ms: nat,
    throughput: Seq<char>,
    stats: LatencyStats,
) -> Seq<char> {
    label + ","@ + scope + ","@ + decimal(timestamp_ms) + ","@ + decimal(stats.requests as nat)
        + ","@ + throughput + ","@ + latency_columns(stats)
}

/// The time of a second of the measurement, as far as it fits.
pub open spec fn second_timestamp(start_unix_ms: u128, second: usize) -> nat {
    if start_unix_ms + second * 1_000 <= u128::MAX {
        (start_unix_ms + second * 1_000) as nat
    } else {
        u128::MAX as nat
    }
}

/// The heading of the table.
pub open spec fn heading() -> Seq<char> {
    "implementation,scope,timestamp_ms,requests,throughput_rps,average_us,p50_us,p95_us,p99_us,p999_us,max_us"@
}

/// The row of one second of the measurement.
pub open spec fn second_row(
    label: Seq<char>,
    second: usize,
    start_unix_ms: u128,
    stats: LatencyStats,
) -> Seq<char> {
    row(
        label,
        "second-"@ + decimal(second as nat),
        second_timestamp(start_unix_ms, second),
        decimal(leading_digits(stats.requests as nat)) + ".00"@,
        stats,
    )
}

/// The row of the whole measurement.
pub open spec fn overall_row(
    label: Seq<char>,
    start_unix_ms: u128,
    throughput: Seq<char>,
    stats: LatencyStats,
) -> Seq<char> {
    row(label, "overall"@, start_unix_ms as nat, throughput, stats)
}

/// The heading of the table.
#[must_use]
pub fn csv_header() -> (line: String)
    ensures
        line@ == heading(),
{
    "implementation,scope,timestamp_ms,requests,throughput_rps,average_us,p50_us,p95_us,p99_us,p999_us,max_us".to_owned()
}

fn push_column(line: &mut String, n: u128)
    ensures
        final(line)@ == old(line)@ + ","@ + decimal(n as nat),
{
    line.append(",");
    line.append(decimal_text(n).as_str());
}

fn csv_row(
    label: &str,
    scope: &str,
    timestamp_ms: u128,
    throughput: &str,
    stats: &LatencyStats,
) -> (line: String)
    ensures
        line@ == row(label@, scope@, timestamp_ms as nat, throughput@, *stats),
{
    let mut line = label.to_owned();
    line.append(",");
    line.append(scope);
    push_column(&mut line, timestamp_ms);
    push_column(&mut line, stats.requests as u128);
    line.append(",");
    line.append(throughput);
    push_column(&mut line, stats.average_us as u128);
    push_column(&mut line, stats.p50_us as u128);
    push_column(&mut line, stats.p95_us as u128);
    push_column(&mut line, stats.p99_us as u128);
    push_column(&mut line, stats.p999_us as u128);
    push_column(&mut line, stats.max_us as u128);
    assert(line@ =~= row(label@, scope@, timestamp_ms as nat, throughput@, *stats));
    line
}

/// The row of one second. Its throughput is the number of its requests, with two decimal
/// places.
#[must_use]
pub fn csv_second_row(label: &str, second: usize, start_unix_ms: u128, stats: &LatencyStats) -> (
line: String)
    ensures
        line@ == second_row(label@, second, start_unix_ms, *stats),
{
    let mut scope = "second-".to_owned();
    scope.append(decimal_text(second as u128).as_str());
    let mut throughput = decimal_text(leading_digits_of(stats.requests as u64));
    throughput.append(".00");
    let timestamp_ms: u128 = start_unix_ms.saturating_add((second as u128) * 1_000);
    csv_row(label, scope.as_str(), timestamp_ms, throughput.as_str(), stats)
}

/// The row of the whole measurement, with its throughput as text.
#[must_use]
pub fn csv_overall_row(label: &str, start_unix_ms: u128, throughput: &str, stats: &LatencyStats)
    -> (line: String)
    ensures
        line@ == overall_row(label@, start_unix_ms, throughput@, *stats),
{
    csv_row(label, "overall", start_unix_ms, throughput, stats)
}

// ---------------------------------------------------------------------------------------
// Laws
// ---------------------------------------------------------------------------------------

/// No two options have the same name.
proof fn lemma_option_flags()
    ensures
        "--addr"@ != "--clients"@,
        "--addr"@ != "--keys"@,
        "--addr"@ != "--value-size"@,
        "--addr"@ != "--warmup-seconds"@,
        "--addr"@ != "--duration-seconds"@,
        "--addr"@ != "--rate"@,
        "--addr"@ != "--label"@,
        "--addr"@ != "--output"@,
        "--clients"@ != "--keys"@,
        "--clients"@ != "--value-size"@,
        "--clients"@ != "--warmup-seconds"@,
        "--clients"@ != "--duration-seconds"@,
        "--clients"@ != "--rate"@,
        "--clients"@ != "--label"@,
        "--clients"@ != "--output"@,
        "--keys"@ != "--value-size"@,
        "--keys"@ != "--warmup-seconds"@,
        "--keys"@ != "--duration-seconds"@,
        "--keys"@ != "--rate"@,
        "--keys"@ != "--label"@,
        "--keys"@ != "--output"@,
        "--value-size"@ != "--warmup-seconds"@,
        "--value-size"@ != "--duration-seconds"@,
        "--value-size"@ != "--rate"@,
        "--value-size"@ != "--label"@,
        "--value-size"@ != "--output"@,
        "--warmup-seconds"@ != "--duration-seconds"@,
        "--warmup-seconds"@ != "--rate"@,
        "--warmup-seconds"@ != "--label"@,
        "--warmup-seconds"@ != "--output"@,
        "--duration-seconds"@ != "--rate"@,
        "--duration-seconds"@ != "--label"@,
        "--duration-seconds"@ != "--output"@,
        "--rate"@ != "--label"@,
        "--rate"@ != "--output"@,
        "--label"@ != "--output"@,
{
    reveal_strlit("--addr");
    reveal_strlit("--clients");
    reveal_strlit("--keys");
    reveal_strlit("--value-size");
    reveal_strlit("--warmup-seconds");
    reveal_strlit("--duration-seconds");
    reveal_strlit("--rate");
    reveal_strlit("--label");
    reveal_strlit("--output");
    assert("--addr"@.len() == 6);
    assert("--clients"@.len() == 9);
    assert("--keys"@.len() == 6);
    assert("--value-size"@.len() == 12);
    assert("--warmup-seconds"@.len() == 16);
    assert("--duration-seconds"@.len() == 18);
    assert("--rate"@.len() == 6);
    assert("--label"@.len() == 7);
    assert("--output"@.len() == 8);
    assert("--addr"@[2] != "--keys"@[2]);
    assert("--addr"@[2] != "--rate"@[2]);
    assert("--keys"@[2] != "--rate"@[2]);
}

/// Each option sets what it is for and nothing else.
pub proof fn law_options_set_what_they_are_for(
    config: ConfigView,
    text: Seq<char>,
    size: usize,
    number: u64,
)
    ensures
        ({
            let sized = decimal(size as nat);
            let numbered = decimal(number as nat);
            &&& with_option(config, "--addr"@, text) == Ok::<_, Seq<char>>(
                ConfigView { address: text, ..config },
            )
            &&& with_option(config, "--clients"@, sized) == Ok::<_, Seq<char>>(
                ConfigView { clients: size, ..config },
            )
            &&& with_option(config, "--keys"@, sized) == Ok::<_, Seq<char>>(
                ConfigView { key_count: size, ..config },
            )
            &&& with_option(config, "--value-size"@, sized) == Ok::<_, Seq<char>>(
                ConfigView { value_size: size, ..config },
            )
            &&& with_option(config, "--warmup-seconds"@, numbered) == Ok::<_, Seq<char>>(
                ConfigView { warmup_seconds: number, ..config },
            )
            &&& with_option(config, "--duration-seconds"@, numbered) == Ok::<_, Seq<char>>(
                ConfigView { duration_seconds: number, ..config },
            )
            &&& with_option(config, "--rate"@, numbered) == Ok::<_, Seq<char>>(
                ConfigView { rate: number, ..config },
            )
            &&& with_option(config, "--label"@, text) == Ok::<_, Seq<char>>(
                ConfigView { label: text, ..config },
            )
            &&& with_option(config, "--output"@, text) == Ok::<_, Seq<char>>(
                ConfigView { output: text, ..config },
            )
        }),
{
    lemma_option_flags();
    law_parse_of_decimal(size as nat, usize::MAX as nat);
    law_parse_of_decimal(number as nat, u64::MAX as nat);
}

/// An option is refused where it is not known, and the message names it, or where its value is
/// to be a number and is none.
pub proof fn law_which_options_are_refused(config: ConfigView, flag: Seq<char>, value: Seq<char>)
    ensures
        ({
            let result = with_option(config, flag, value);
            let texts = flag == "--addr"@ || flag == "--label"@ || flag == "--output"@;
            let sizes = flag == "--clients"@ || flag == "--keys"@ || flag == "--value-size"@;
            let numbers = flag == "--warmup-seconds"@ || flag == "--duration-seconds"@ || flag
                == "--rate"@;
            &&& texts ==> result is Ok
            &&& sizes ==> (result is Ok <==> parsed(value, 10, usize::MAX as nat) is Some)
            &&& numbers ==> (result is Ok <==> parsed(value, 10, u64::MAX as nat) is Some)
            &&& !texts && !sizes && !numbers ==> result is Err && flag.is_suffix_of(result->Err_0)
            &&& (sizes || numbers) && result is Err ==> flag.is_prefix_of(result->Err_0)
        }),
{
    lemma_option_flags();
    let result = with_option(config, flag, value);
    if result is Err {
        let unknown = "未知参数："@ + flag;
        assert(unknown.skip(unknown.len() - flag.len()) =~= flag);
        let bad = flag + " 必须是合法非负整数"@;
        assert(bad.take(flag.len() as int) =~= flag);
    }
}

/// An option behind others counts, whatever was given before it. An option without its value
/// is refused, and the message names it.
pub proof fn law_later_option_counts(
    config: ConfigView,
    args: Seq<Seq<char>>,
    flag: Seq<char>,
    value: Seq<char>,
)
    requires
        with_options(config, args) is Ok,
    ensures
        with_options(config, args + seq![flag, value]) == with_option(
            with_options(config, args)->Ok_0,
            flag,
            value,
        ),
        with_options(config, args + seq![flag]) is Err,
        flag.is_prefix_of(with_options(config, args + seq![flag])->Err_0),
        with_options(config, Seq::empty()) == Ok::<_, Seq<char>>(config),
    decreases args.len(),
{
    let pair = seq![flag, value];
    if args.len() == 0 {
        assert(args + pair =~= pair);
        assert(pair.skip(2) =~= Seq::empty());
        reveal_with_fuel(with_options, 2);
        assert(args + seq![flag] =~= seq![flag]);
        let message = flag + " 缺少参数值"@;
        assert(message.take(flag.len() as int) =~= flag);
    } else {
        let next = with_option(config, args[0], args[1])->Ok_0;
        law_later_option_counts(next, args.skip(2), flag, value);
        assert((args + pair).skip(2) =~= args.skip(2) + pair);
        assert((args + seq![flag]).skip(2) =~= args.skip(2) + seq![flag]);
    }
}

/// The options of a run are those of the arguments, and make sense: there is a client, a key
/// for each client, a value to write, and requests to send. What does not is refused, and the
/// message names an option that is to blame.
pub proof fn law_a_run_makes_sense(args: Seq<Seq<char>>)
    ensures
        options_of(args) matches Ok(config) ==> {
            &&& with_options(default_options(), args) == Ok::<_, Seq<char>>(config)
            &&& config.clients > 0
            &&& config.key_count >= config.clients
            &&& config.value_size > 0
            &&& config.duration_seconds > 0
            &&& config.rate > 0
        },
        with_options(default_options(), args) matches Ok(config) ==> {
            &&& options_of(args) is Ok <==> config.clients > 0 && config.key_count
                >= config.clients && config.value_size > 0 && config.duration_seconds > 0
                && config.rate > 0
            &&& config.clients == 0 ==> "--clients"@.is_prefix_of(options_of(args)->Err_0)
            &&& config.key_count < config.clients ==> "--keys"@.is_prefix_of(
                options_of(args)->Err_0,
            )
            &&& config.clients > 0 && config.key_count >= config.clients ==> {
                &&& config.value_size == 0 ==> "--value-size"@.is_prefix_of(
                    options_of(args)->Err_0,
                )
                &&& config.value_size > 0 && config.duration_seconds == 0
                    ==> "--duration-seconds"@.is_prefix_of(options_of(args)->Err_0)
                &&& config.value_size > 0 && config.duration_seconds > 0 && config.rate == 0
                    ==> "--rate"@.is_prefix_of(options_of(args)->Err_0)
            }
        },
        with_options(default_options(), args) is Err ==> options_of(args) is Err
            && options_of(args)->Err_0 == with_options(default_options(), args)->Err_0,
{
    reveal_strlit("--clients 必须大于 0");
    reveal_strlit("--clients");
    reveal_strlit("--keys 不能少于客户端数量");
    reveal_strlit("--keys");
    reveal_strlit("--value-size 必须大于 0");
    reveal_strlit("--value-size");
    reveal_strlit("--duration-seconds 必须大于 0");
    reveal_strlit("--duration-seconds");
    reveal_strlit("--rate 必须大于 0");
    reveal_strlit("--rate");
    assert("--value-size 必须大于 0"@.take(12) =~= "--value-size"@);
    assert("--duration-seconds 必须大于 0"@.take(18) =~= "--duration-seconds"@);
    assert("--rate 必须大于 0"@.take(6) =~= "--rate"@);
    assert("--clients 必须大于 0"@.take(9) =~= "--clients"@);
    assert("--keys 不能少于客户端数量"@.take(6) =~= "--keys"@);
}

proof fn lemma_no_white_space_in_padded(n: nat, width: nat)
    ensures
        forall|i: int|
            0 <= i < padded_decimal(n, width).len() ==> '0' <= #[trigger] padded_decimal(
                n,
                width,
            )[i] <= '9',
{
    law_decimal_form(n);
    let text = padded_decimal(n, width);
    assert forall|i: int| 0 <= i < text.len() implies '0' <= #[trigger] text[i] <= '9' by {
        let digits = decimal(n);
        if digits.len() < width {
            let zeros = width - digits.len();
            if i >= zeros {
                assert(text[i] == digits[i - zeros]);
            }
        }
    }
}

/// The key with a number.
pub open spec fn bench_key(key_id: nat) -> Seq<char> {
    "key-"@ + padded_decimal(key_id, 8)
}

/// A command of the benchmark is one line, and the server reads it as a SET of the key with the
/// number, with a value of as many characters as asked for.
pub proof fn law_commands_write_their_key(key_id: nat, value_size: nat)
    requires
        value_size > 0,
    ensures
        ({
            let command = set_command(key_id, value_size);
            let value = repeated('x', value_size);
            &&& request_of_words(words(command)) == Ok::<_, ProtocolErrorView>(
                RequestView::Execute(CommandView::SetValue { key: bench_key(key_id), value }),
            )
            &&& value.len() == value_size
            &&& command.len() > 0 && command.last() == '\n'
            &&& forall|i: int| 0 <= i < command.len() - 1 ==> #[trigger] command[i] != '\n'
                && command[i] != '\r'
        }),
{
    let command = set_command(key_id, value_size);
    let (key, value) = (bench_key(key_id), repeated('x', value_size));
    let parts = seq!["SET"@, key, value];
    reveal_strlit("SET");
    reveal_strlit("SET key-");
    reveal_strlit("key-");
    reveal_strlit(" ");
    reveal_strlit("\n");
    lemma_no_white_space_in_padded(key_id, 8);
    let digits = padded_decimal(key_id, 8);
    assert forall|i: int, j: int|
        0 <= i < parts.len() && 0 <= j < parts[i].len() implies !is_white_space(
        #[trigger] parts[i][j],
    ) by {
        if i == 1 && j >= 4 {
            assert(key[j] == digits[j - 4]);
        }
    }
    assert forall|i: int| 0 <= i < parts.len() implies (#[trigger] parts[i]).len() > 0 by {}
    law_words_of_join(parts);
    let line = join(parts, seq![' ']);
    let two = parts.drop_last();
    assert(two.drop_last() =~= seq!["SET"@]);
    assert(join(two.drop_last(), seq![' ']) == "SET"@);
    assert(join(two, seq![' ']) == "SET"@ + seq![' '] + key);
    assert(line == join(two, seq![' ']) + seq![' '] + value);
    assert(command =~= line.push('\n'));
    assert(command.drop_last() =~= line);
    assert(words(command) == words(line));
    assert(upper("SET"@) =~= "SET"@);
    law_requests_take_their_arguments(parts);
    law_names_lead_to_their_requests(parts);
    assert(parts.skip(2) =~= seq![value]);
    assert forall|i: int| 0 <= i < command.len() - 1 implies #[trigger] command[i] != '\n'
        && command[i] != '\r' by {
        if i >= 8 && i < 8 + digits.len() {
            assert(command[i] == digits[i - 8]);
        }
    }
}

/// Different numbers make different keys.
pub proof fn law_keys_differ(a: nat, b: nat)
    ensures
        bench_key(a) == bench_key(b) ==> a == b,
{
    if bench_key(a) == bench_key(b) {
        reveal_strlit("key-");
        law_padded_decimal(a, 8);
        law_padded_decimal(b, 8);
        assert(bench_key(a).skip(4) =~= padded_decimal(a, 8));
        assert(bench_key(b).skip(4) =~= padded_decimal(b, 8));
        let max = a + b;
        crate::number::law_what_is_a_number(padded_decimal(a, 8), 10, a, max);
        crate::number::law_what_is_a_number(padded_decimal(b, 8), 10, b, max);
    }
}

/// Each key is written by just the client of its remainder: that client has the command of the
/// key, and every command of a client is that of such a key. A client without a key has none.
pub proof fn law_each_key_has_its_writer(config: ConfigView, client_id: nat, n: nat, i: int)
    requires
        client_id < config.clients,
    ensures
        ({
            let commands = client_commands(client_id, config);
            let size = config.value_size as nat;
            &&& n < config.key_count && n % (config.clients as nat) == client_id
                ==> commands.contains(set_command(n, size))
            &&& 0 <= i < commands.len() ==> exists|k: nat|
                k < config.key_count && k % (config.clients as nat) == client_id && commands[i]
                    == #[trigger] set_command(k, size)
            &&& commands.len() == 0 <==> client_id >= config.key_count
        }),
{
    let clients = config.clients as nat;
    let end = config.key_count as nat;
    let ids = strided(client_id, clients, end);
    let commands = client_commands(client_id, config);
    law_clients_share_without_overlap(client_id, clients, end, n);
    if ids.contains(n) {
        let at = choose|at: int| 0 <= at < ids.len() && ids[at] == n;
        assert(commands[at] == set_command(n, config.value_size as nat));
    }
    if 0 <= i < commands.len() {
        law_clients_share_without_overlap(client_id, clients, end, ids[i]);
        assert(ids.contains(ids[i]));
        assert(commands[i] == set_command(ids[i], config.value_size as nat));
    }
    if client_id < end {
        assert(ids.len() > 0);
    }
}

/// A write is accepted where the server said OK, whatever white space is behind it; any other
/// answer is handed on without that.
pub proof fn law_what_is_accepted(text: Seq<char>, space: char)
    requires
        is_white_space(space),
    ensures
        accepted("OK"@.push(space)) is Ok,
        accepted("OK"@) is Ok,
        accepted(text.push(space)) == accepted(text),
        accepted(text) is Ok ==> text.take(2) == "OK"@ && forall|i: int|
            2 <= i < text.len() ==> is_white_space(#[trigger] text[i]),
        accepted(text) matches Err(message) ==> trimmed_end(text).is_suffix_of(message),
{
    reveal_strlit("OK");
    assert("OK"@.push(space).drop_last() =~= "OK"@);
    assert(text.push(space).drop_last() =~= text);
    law_trimming_the_end(text);
    if accepted(text) is Err {
        let message = accepted(text)->Err_0;
        let rest = trimmed_end(text);
        assert(message.skip(message.len() - rest.len()) =~= rest);
    }
}

/// A request is due when as many requests as its number take at the given rate, to the
/// nanosecond that has begun, as long as a number of nanoseconds can hold that.
pub proof fn law_requests_are_due_at_the_rate(request: nat, rate: nat)
    requires
        rate > 0,
        request * 1_000_000_000 < 0x1_0000_0000_0000_0000 * rate,
    ensures
        due_nanos(request, rate) * rate <= request * 1_000_000_000,
        request * 1_000_000_000 < (due_nanos(request, rate) + 1) * rate,
{
    let x = request * 1_000_000_000;
    let q = x / rate;
    vstd::arithmetic::div_mod::lemma_fundamental_div_mod(x as int, rate as int);
    assert(q * rate <= x < (q + 1) * rate) by (nonlinear_arith)
        requires
            x == rate * q + x % rate,
            0 <= x % rate < rate,
            rate > 0,
    ;
    assert(q < 0x1_0000_0000_0000_0000) by (nonlinear_arith)
        requires
            q * rate <= x,
            x < 0x1_0000_0000_0000_0000 * rate,
            rate > 0,
    ;
    vstd::arithmetic::div_mod::lemma_small_mod(q, 0x1_0000_0000_0000_0000);
}

/// A schedule after a number of requests.
pub open spec fn after_requests(schedule: ScheduleView, count: nat) -> ScheduleView
    decreases count,
{
    if count == 0 {
        schedule
    } else {
        advanced(after_requests(schedule, (count - 1) as nat))
    }
}

/// The requests of a client are every so many as there are clients, from its own number on; its
/// commands are sent in turn; and there are as many requests in all as the rate makes in the
/// duration. A request beyond them is not sent.
pub proof fn law_requests_of_a_client(
    client_id: usize,
    config: ConfigView,
    command_index: usize,
    command_count: usize,
    k: nat,
)
    requires
        command_index < command_count,
        config.rate * config.duration_seconds <= u64::MAX,
        client_id + k * config.clients <= u64::MAX,
    ensures
        ({
            let first = scheduled(client_id, config, command_index, command_count);
            let then = after_requests(first->Ok_0, k);
            let number = (client_id + k * config.clients) as nat;
            &&& first is Ok
            &&& then.request_number == number
            &&& then.command_index == (command_index + k) % (command_count as int)
            &&& then.rate == config.rate
            &&& due_request(then) is Some <==> number < config.rate * config.duration_seconds
            &&& due_request(then) matches Some(due) ==> {
                &&& due.offset_nanos == due_nanos(number, config.rate as nat)
                &&& due.second == due_nanos(number, config.rate as nat) / 1_000_000_000
                &&& due.command_index == then.command_index
            }
        }),
    decreases k,
{
    let first = scheduled(client_id, config, command_index, command_count);
    lemma_requests_so_far(client_id, config, command_index, command_count, k);
    let number = (client_id + k * config.clients) as nat;
    let x = number * 1_000_000_000 / (config.rate as nat);
    assert(x % 0x1_0000_0000_0000_0000 < 0x1_0000_0000_0000_0000);
}

proof fn lemma_requests_so_far(
    client_id: usize,
    config: ConfigView,
    command_index: usize,
    command_count: usize,
    k: nat,
)
    requires
        command_index < command_count,
        config.rate * config.duration_seconds <= u64::MAX,
        client_id + k * config.clients <= u64::MAX,
    ensures
        ({
            let first = scheduled(client_id, config, command_index, command_count)->Ok_0;
            let then = after_requests(first, k);
            &&& then.request_number == client_id + k * config.clients
            &&& then.command_index == (command_index + k) % (command_count as int)
            &&& then.command_index < command_count
            &&& then.command_count == command_count
            &&& then.clients == config.clients
            &&& then.rate == config.rate
            &&& then.total_requests == config.rate * config.duration_seconds
        }),
    decreases k,
{
    let first = scheduled(client_id, config, command_index, command_count)->Ok_0;
    if k == 0 {
        vstd::arithmetic::div_mod::lemma_small_mod(command_index as nat, command_count as nat);
        assert(0 * config.clients == 0) by (nonlinear_arith);
    } else {
        let before = (k - 1) as nat;
        assert(k * config.clients == before * config.clients + config.clients) by (nonlinear_arith)
            requires
                k == before + 1,
        ;
        lemma_requests_so_far(client_id, config, command_index, command_count, before);
        let at = after_requests(first, before).command_index;
        let count = command_count as int;
        vstd::arithmetic::div_mod::lemma_add_mod_noop(command_index + before, 1, count);
        vstd::arithmetic::div_mod::lemma_small_mod(at as nat, command_count as nat);
        if count > 1 {
            vstd::arithmetic::div_mod::lemma_small_mod(1, command_count as nat);
        } else {
            assert(at == 0);
            assert((command_index + k) % 1 == 0);
            assert((at + 1) % 1 == 0);
        }
        assert((at + 1) % count == (command_index + k) % count);
    }
}

/// More requests than can be counted are refused.
pub proof fn law_too_many_requests_are_refused(
    client_id: usize,
    config: ConfigView,
    command_index: usize,
    command_count: usize,
)
    ensures
        scheduled(client_id, config, command_index, command_count) is Err <==> config.rate
            * config.duration_seconds > u64::MAX,
{
}

/// The commands are sent in turn: behind the last one the first one follows.
pub proof fn law_commands_follow_each_other(index: usize, count: usize)
    requires
        index < count,
    ensures
        index + 1 < count ==> next_place(index, count) == index + 1,
        index + 1 == count ==> next_place(index, count) == 0,
{
    if index + 1 < count {
        vstd::arithmetic::div_mod::lemma_small_mod((index + 1) as nat, count as nat);
    } else {
        vstd::arithmetic::div_mod::lemma_mod_self_0(count as int);
    }
}

/// A sample is added to its own second, behind the others, and to no other second; one behind
/// the last second is left out. At first there is no sample.
pub proof fn law_samples_are_recorded(
    samples: Seq<Seq<u64>>,
    second: u64,
    latency_us: u64,
    at: int,
    seconds: nat,
)
    requires
        0 <= at < samples.len(),
    ensures
        ({
            let after = recorded(samples, second, latency_us);
            &&& after.len() == samples.len()
            &&& at != second ==> after[at] == samples[at]
            &&& at == second ==> {
                &&& after[at].len() == samples[at].len() + 1
                &&& after[at].last() == latency_us
                &&& after[at].drop_last() == samples[at]
            }
        }),
        second >= samples.len() ==> recorded(samples, second, latency_us) == samples,
        no_samples(seconds).len() == seconds,
        all_samples(no_samples(seconds)) == Seq::<u64>::empty(),
{
    if at == second {
        assert(samples[at].push(latency_us).drop_last() =~= samples[at]);
    }
    lemma_no_samples(seconds);
}

proof fn lemma_no_samples(seconds: nat)
    ensures
        all_samples(no_samples(seconds)) == Seq::<u64>::empty(),
    decreases seconds,
{
    if seconds > 0 {
        lemma_no_samples((seconds - 1) as nat);
        assert(no_samples(seconds).drop_last() =~= no_samples((seconds - 1) as nat));
        assert(all_samples(no_samples(seconds)) =~= Seq::<u64>::empty());
    }
}

/// The samples of a second of two clients are those of the one and then those of the other, and
/// no second is added or lost.
pub proof fn law_merging_goes_by_seconds(all: Seq<Seq<u64>>, one: Seq<Seq<u64>>, at: int)
    requires
        0 <= at < all.len(),
    ensures
        merged(all, one).len() == all.len(),
        at < one.len() ==> {
            let both = merged(all, one)[at];
            &&& both.len() == all[at].len() + one[at].len()
            &&& both.take(all[at].len() as int) == all[at]
            &&& both.skip(all[at].len() as int) == one[at]
        },
        at >= one.len() ==> merged(all, one)[at] == all[at],
{
    if at < one.len() {
        let both = merged(all, one)[at];
        assert(both.take(all[at].len() as int) =~= all[at]);
        assert(both.skip(all[at].len() as int) =~= one[at]);
    }
}

/// A sample is among all samples just where it is in some second, and there are as many of them
/// as in the seconds together.
pub proof fn law_all_samples_are_collected(samples: Seq<Seq<u64>>, last: Seq<u64>, sample: u64)
    ensures
        all_samples(samples).contains(sample) <==> exists|i: int|
            0 <= i < samples.len() && (#[trigger] samples[i]).contains(sample),
        all_samples(samples.push(last)).len() == all_samples(samples).len() + last.len(),
        all_samples(Seq::empty()) == Seq::<u64>::empty(),
    decreases samples.len(),
{
    assert(samples.push(last).drop_last() =~= samples);
    if samples.len() > 0 {
        let front = samples.drop_last();
        law_all_samples_are_collected(front, last, sample);
        let all = all_samples(samples);
        let before = all_samples(front);
        if all.contains(sample) {
            let at = choose|at: int| 0 <= at < all.len() && all[at] == sample;
            if at < before.len() {
                assert(before[at] == sample);
                let i = choose|i: int|
                    0 <= i < front.len() && (#[trigger] front[i]).contains(sample);
                assert(samples[i].contains(sample));
            } else {
                assert(samples.last()[at - before.len()] == sample);
                assert(samples[samples.len() - 1].contains(sample));
            }
        }
        if exists|i: int| 0 <= i < samples.len() && (#[trigger] samples[i]).contains(sample) {
            let i = choose|i: int|
                0 <= i < samples.len() && (#[trigger] samples[i]).contains(sample);
            if i < front.len() {
                assert(front[i].contains(sample));
                let at = choose|at: int| 0 <= at < before.len() && before[at] == sample;
                assert(all[at] == sample);
            } else {
                let at = choose|at: int| 0 <= at < samples[i].len() && samples[i][at] == sample;
                assert(all[before.len() + at] == sample);
            }
        }
    }
}

/// The sum of samples is that of its parts, and of one sample that sample.
pub proof fn law_sums_add_up(a: Seq<u64>, b: Seq<u64>, sample: u64)
    ensures
        sum(a + b) == sum(a) + sum(b),
        sum(seq![sample]) == sample,
        sum(Seq::empty()) == 0,
    decreases b.len(),
{
    assert(seq![sample].drop_last() =~= Seq::empty());
    reveal_with_fuel(sum, 2);
    if b.len() == 0 {
        assert(a + b =~= a);
    } else {
        law_sums_add_up(a, b.drop_last(), sample);
        assert((a + b).drop_last() =~= a + b.drop_last());
    }
}

/// A latency is kept as it is where it fits; else the largest that does stands for it.
pub proof fn law_latencies_fit(micros: u128, more: u128)
    requires
        micros <= more,
    ensures
        micros <= u64::MAX ==> fitting_micros(micros) == micros,
        micros > u64::MAX ==> fitting_micros(micros) == u64::MAX,
        fitting_micros(micros) <= fitting_micros(more),
{
}

/// The statistics of samples in ascending order mean what they are named after: how many there
/// are, the largest, the average rounded down, and the smallest sample at or below which stand
/// half, 95 %, 99 % and 99.9 % of all. Without samples all are zero.
pub proof fn law_statistics_mean_what_they_say(sorted: Seq<u64>)
    requires
        ascending(sorted),
        sorted.len() <= usize::MAX,
    ensures
        ({
            let stats = stats_of(sorted);
            let n = sorted.len() as int;
            &&& stats.requests == n
            &&& n > 0 ==> {
                &&& sorted.contains(stats.max_us)
                &&& forall|i: int| 0 <= i < n ==> #[trigger] sorted[i] <= stats.max_us
                &&& stats.average_us * n <= sum(sorted) < (stats.average_us + 1) * n
                &&& stats.p50_us == sorted[(n + 1) / 2 - 1]
                &&& stats.p95_us == sorted[(19 * n + 19) / 20 - 1]
                &&& stats.p99_us == sorted[(99 * n + 99) / 100 - 1]
                &&& stats.p999_us == sorted[(999 * n + 999) / 1000 - 1]
            }
            &&& n == 0 ==> stats.average_us == 0 && stats.p50_us == 0 && stats.p95_us == 0
                && stats.p99_us == 0 && stats.p999_us == 0 && stats.max_us == 0
        }),
{
    let n = sorted.len();
    if n > 0 {
        law_average_is_between(sorted);
        let total = sum(sorted);
        let q = total / n;
        vstd::arithmetic::div_mod::lemma_fundamental_div_mod(total as int, n as int);
        lemma_sum_bounds(sorted, sorted[0] as nat, sorted.last() as nat);
        assert(q <= sorted.last()) by (nonlinear_arith)
            requires
                total <= n * (sorted.last() as nat),
                q == total / n,
                n > 0,
        ;
        assert(q * n <= total < (q + 1) * n) by (nonlinear_arith)
            requires
                total == n * q + total % n,
                0 <= total % n < n,
                n > 0,
        ;
        assert(sorted[n - 1] == stats_of(sorted).max_us);
        assert((500 * n + 999) / 1000 == (n + 1) / 2);
        assert((950 * n + 999) / 1000 == (19 * n + 19) / 20);
        assert((990 * n + 999) / 1000 == (99 * n + 99) / 100);
    }
}

/// A percentile takes no more samples than it must.
pub proof fn law_percentile_ranks_are_least(count: nat, permille: nat)
    ensures
        1_000 * percentile_rank(count, permille) >= permille * count,
        percentile_rank(count, permille) > 0 ==> 1_000 * (percentile_rank(count, permille) - 1)
            < permille * count,
{
}

/// At the edges, the percentile is the smallest or the largest sample; without samples it is
/// zero.
pub proof fn law_percentiles_at_the_edges(sorted: Seq<u64>, permille: nat)
    ensures
        sorted.len() > 0 ==> percentile(sorted, 0) == sorted[0],
        sorted.len() > 0 && permille >= 1_000 ==> percentile(sorted, permille) == sorted.last(),
        sorted.len() == 0 ==> percentile(sorted, permille) == 0,
{
    let n = sorted.len();
    if n > 0 {
        assert(0 * n == 0) by (nonlinear_arith);
        if permille >= 1_000 {
            assert(permille * n >= 1_000 * n) by (nonlinear_arith)
                requires
                    permille >= 1_000,
            ;
        }
    }
}

/// The numbers of a client stand in ascending order, each as far behind the one before it as
/// there are clients, and so do its commands.
pub proof fn law_numbers_of_a_client_ascend(first: nat, step: nat, end: nat, i: int)
    requires
        step > 0,
        0 <= i < strided(first, step, end).len(),
    ensures
        strided(first, step, end)[i] == first + i * step,
    decreases (if first < end { (end - first) as nat } else { 0 }),
{
    let all = strided(first, step, end);
    let rest = strided(first + step, step, end);
    assert(all == seq![first] + rest);
    if i > 0 {
        law_numbers_of_a_client_ascend(first + step, step, end, i - 1);
        assert(all[i] == rest[i - 1]);
        assert(i * step == (i - 1) * step + step) by (nonlinear_arith);
    } else {
        assert(0 * step == 0) by (nonlinear_arith);
    }
}

/// The commands of a client stand in the order of their keys.
pub proof fn law_commands_of_a_client_ascend(client_id: nat, config: ConfigView, i: int)
    requires
        config.clients > 0,
        0 <= i < client_commands(client_id, config).len(),
    ensures
        client_commands(client_id, config)[i] == set_command(
            (client_id + i * config.clients) as nat,
            config.value_size as nat,
        ),
{
    law_numbers_of_a_client_ascend(
        client_id,
        config.clients as nat,
        config.key_count as nat,
        i,
    );
}

/// The time at which a request is due is kept in sixty-four bits.
pub proof fn law_due_times_are_kept_in_a_word(request: nat, rate: nat)
    requires
        rate > 0,
    ensures
        due_nanos(request, rate) < 0x1_0000_0000_0000_0000,
        exists|k: nat|
            request * 1_000_000_000 / rate == due_nanos(request, rate) + #[trigger] (k
                * 0x1_0000_0000_0000_0000),
{
    let x = request * 1_000_000_000 / rate;
    let m: nat = 0x1_0000_0000_0000_0000;
    vstd::arithmetic::div_mod::lemma_fundamental_div_mod(x as int, m as int);
    let k = x / m;
    assert(x == due_nanos(request, rate) + k * m);
}

/// Behind the largest request number there is none.
pub proof fn law_last_request_number(schedule: ScheduleView)
    requires
        schedule.request_number + schedule.clients > u64::MAX,
    ensures
        due_request(advanced(schedule)) is None,
{
}

/// The columns of the table.
pub open spec fn columns() -> Seq<Seq<char>> {
    seq![
        "implementation"@,
        "scope"@,
        "timestamp_ms"@,
        "requests"@,
        "throughput_rps"@,
        "average_us"@,
        "p50_us"@,
        "p95_us"@,
        "p99_us"@,
        "p999_us"@,
        "max_us"@,
    ]
}

/// The texts in the columns of a row.
pub open spec fn cells(
    label: Seq<char>,
    scope: Seq<char>,
    timestamp_ms: nat,
    throughput: Seq<char>,
    stats: LatencyStats,
) -> Seq<Seq<char>> {
    seq![
        label,
        scope,
        decimal(timestamp_ms),
        decimal(stats.requests as nat),
        throughput,
        decimal(stats.average_us as nat),
        decimal(stats.p50_us as nat),
        decimal(stats.p95_us as nat),
        decimal(stats.p99_us as nat),
        decimal(stats.p999_us as nat),
        decimal(stats.max_us as nat),
    ]
}

proof fn lemma_eleven_joined(parts: Seq<Seq<char>>)
    requires
        parts.len() == 11,
    ensures
        join(parts, seq![',']) == parts[0] + seq![','] + parts[1] + seq![','] + parts[2] + seq![',']
            + parts[3] + seq![','] + parts[4] + seq![','] + parts[5] + seq![','] + parts[6]
            + seq![','] + parts[7] + seq![','] + parts[8] + seq![','] + parts[9] + seq![',']
            + parts[10],
{
    let sep = seq![','];
    assert(parts.take(11) =~= parts);
    assert(parts.take(11).drop_last() =~= parts.take(10));
    assert(parts.take(10).drop_last() =~= parts.take(9));
    assert(parts.take(9).drop_last() =~= parts.take(8));
    assert(parts.take(8).drop_last() =~= parts.take(7));
    assert(parts.take(7).drop_last() =~= parts.take(6));
    assert(parts.take(6).drop_last() =~= parts.take(5));
    assert(parts.take(5).drop_last() =~= parts.take(4));
    assert(parts.take(4).drop_last() =~= parts.take(3));
    assert(parts.take(3).drop_last() =~= parts.take(2));
    assert(parts.take(2).drop_last() =~= parts.take(1));
    assert(join(parts.take(1), sep) == parts[0]);
    assert(join(parts.take(2), sep) == join(parts.take(1), sep) + sep + parts[1]);
    assert(join(parts.take(3), sep) == join(parts.take(2), sep) + sep + parts[2]);
    assert(join(parts.take(4), sep) == join(parts.take(3), sep) + sep + parts[3]);
    assert(join(parts.take(5), sep) == join(parts.take(4), sep) + sep + parts[4]);
    assert(join(parts.take(6), sep) == join(parts.take(5), sep) + sep + parts[5]);
    assert(join(parts.take(7), sep) == join(parts.take(6), sep) + sep + parts[6]);
    assert(join(parts.take(8), sep) == join(parts.take(7), sep) + sep + parts[7]);
    assert(join(parts.take(9), sep) == join(parts.take(8), sep) + sep + parts[8]);
    assert(join(parts.take(10), sep) == join(parts.take(9), sep) + sep + parts[9]);
    assert(join(parts.take(11), sep) == join(parts.take(10), sep) + sep + parts[10]);
}

/// A row has a text in each column of the heading, each in its place: the texts that were
/// given, and the numbers in decimal. A label with a comma would add columns.
pub proof fn law_rows_fill_the_columns(
    label: Seq<char>,
    scope: Seq<char>,
    timestamp_ms: nat,
    throughput: Seq<char>,
    stats: LatencyStats,
)
    requires
        !label.contains(','),
        !scope.contains(','),
        !throughput.contains(','),
    ensures
        split(row(label, scope, timestamp_ms, throughput, stats), ',') == cells(
            label,
            scope,
            timestamp_ms,
            throughput,
            stats,
        ),
        cells(label, scope, timestamp_ms, throughput, stats).len() == columns().len(),
{
    let parts = cells(label, scope, timestamp_ms, throughput, stats);
    law_decimal_form(timestamp_ms);
    law_decimal_form(stats.requests as nat);
    law_decimal_form(stats.average_us as nat);
    law_decimal_form(stats.p50_us as nat);
    law_decimal_form(stats.p95_us as nat);
    law_decimal_form(stats.p99_us as nat);
    law_decimal_form(stats.p999_us as nat);
    law_decimal_form(stats.max_us as nat);
    assert forall|i: int| 0 <= i < parts.len() implies !(#[trigger] parts[i]).contains(',') by {}
    law_split_of_join(parts, ',');
    lemma_eleven_joined(parts);
    reveal_strlit(",");
    assert(","@ =~= seq![',']);
    assert(row(label, scope, timestamp_ms, throughput, stats) =~= join(parts, seq![',']));
}

/// The heading names the columns.
pub proof fn law_heading_names_the_columns()
    ensures
        split(heading(), ',') == columns(),
{
    let parts = columns();
    reveal_strlit("implementation");
    reveal_strlit("scope");
    reveal_strlit("timestamp_ms");
    reveal_strlit("requests");
    reveal_strlit("throughput_rps");
    reveal_strlit("average_us");
    reveal_strlit("p50_us");
    reveal_strlit("p95_us");
    reveal_strlit("p99_us");
    reveal_strlit("p999_us");
    reveal_strlit("max_us");
    reveal_strlit(
        "implementation,scope,timestamp_ms,requests,throughput_rps,average_us,p50_us,p95_us,p99_us,p999_us,max_us",
    );
    assert forall|i: int| 0 <= i < parts.len() implies !(#[trigger] parts[i]).contains(',') by {}
    law_split_of_join(parts, ',');
    lemma_eleven_joined(parts);
    assert(heading() =~= join(parts, seq![',']));
}

/// The row of a second names it, gives its time and the number of its requests, and the same
/// number as its throughput; the row of the whole measurement its start and the given
/// throughput.
pub proof fn law_rows_say_what_they_are_of(
    label: Seq<char>,
    second: usize,
    start_unix_ms: u128,
    throughput: Seq<char>,
    stats: LatencyStats,
)
    requires
        !label.contains(','),
        !throughput.contains(','),
        stats.requests < 0x20_0000_0000_0000,
        start_unix_ms + second * 1_000 <= u128::MAX,
    ensures
        ({
            let one = split(second_row(label, second, start_unix_ms, stats), ',');
            let whole = split(overall_row(label, start_unix_ms, throughput, stats), ',');
            &&& one.len() == 11 && whole.len() == 11
            &&& one[0] == label && whole[0] == label
            &&& one[1] == "second-"@ + decimal(second as nat)
            &&& whole[1] == "overall"@
            &&& one[2] == decimal((start_unix_ms + second * 1_000) as nat)
            &&& whole[2] == decimal(start_unix_ms as nat)
            &&& one[3] == decimal(stats.requests as nat) && whole[3] == one[3]
            &&& one[4] == one[3] + ".00"@
            &&& whole[4] == throughput
            &&& one.skip(5) == whole.skip(5)
        }),
{
    reveal_strlit("second-");
    reveal_strlit("overall");
    reveal_strlit(".00");
    let scope = "second-"@ + decimal(second as nat);
    law_leading_digits_are_near(stats.requests as nat);
    let rate = decimal(stats.requests as nat) + ".00"@;
    law_decimal_form(second as nat);
    law_decimal_form(stats.requests as nat);
    assert forall|i: int| 0 <= i < scope.len() implies scope[i] != ',' by {
        if i >= 7 {
            assert(scope[i] == decimal(second as nat)[i - 7]);
        }
    }
    let digits = decimal(stats.requests as nat);
    assert forall|i: int| 0 <= i < rate.len() implies rate[i] != ',' by {
        if i < digits.len() {
            assert(rate[i] == digits[i]);
        }
    }
    law_rows_fill_the_columns(
        label,
        scope,
        second_timestamp(start_unix_ms, second),
        rate,
        stats,
    );
    law_rows_fill_the_columns(label, "overall"@, start_unix_ms as nat, throughput, stats);
    let one = split(second_row(label, second, start_unix_ms, stats), ',');
    let whole = split(overall_row(label, start_unix_ms, throughput, stats), ',');
    assert(one.skip(5) =~= whole.skip(5));
}

/// Where the time of a second does not fit, the largest that does stands for it.
pub proof fn law_times_fit(start_unix_ms: u128, second: usize)
    ensures
        second_timestamp(start_unix_ms, second) <= u128::MAX,
        start_unix_ms + second * 1_000 > u128::MAX ==> second_timestamp(start_unix_ms, second)
            == u128::MAX,
        start_unix_ms <= second_timestamp(start_unix_ms, second),
{
}

/// A client has work just where a key is left for it, and its work is to write its keys.
pub proof fn law_clients_have_work(client_id: nat, config: ConfigView, n: nat)
    requires
        client_id < config.clients,
    ensures
        worker_plan(client_id, config) is Ok <==> client_id < config.key_count,
        worker_plan(client_id, config) matches Ok(commands) ==> (n < config.key_count && n % (
        config.clients as nat) == client_id ==> commands.contains(
            set_command(n, config.value_size as nat),
        )),
        worker_plan(client_id, config) matches Ok(commands) ==> commands.len() == strided(
            client_id,
            config.clients as nat,
            config.key_count as nat,
        ).len(),
{
    law_each_key_has_its_writer(config, client_id, n, 0);
}

/// Without arguments a run has the documented options, and makes sense.
pub proof fn law_default_run()
    ensures
        options_of(Seq::empty()) == Ok::<_, Seq<char>>(default_options()),
        ({
            let config = default_options();
            &&& config.address == "127.0.0.1:7878"@
            &&& config.clients == 32
            &&& config.key_count == 50_000
            &&& config.value_size == 1_024
            &&& config.warmup_seconds == 10
            &&& config.duration_seconds == 30
            &&& config.rate == 60_000
        }),
{
}

} // verus!
