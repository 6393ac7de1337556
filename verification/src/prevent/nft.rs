//! The nftables side: the queueing rule, and the block set.
//!
//! # Fail-open is a property of the rule, not of this program
//!
//! If the sensor process has died, **none of its code runs**, and nothing it might
//! have decided is relevant. The kernel disposes of the queued packet on its own,
//! and what it does is decided by how the queueing rule was written:
//!
//! | Rule | No listener bound | Queue full |
//! |---|---|---|
//! | `queue num 0` | packets **dropped** | packets **dropped** |
//! | `queue num 0 bypass` | packets **accepted** | packets **accepted** |
//!
//! So [`queue_rule`] generates the rule that matches the configured fail mode. The
//! failure this guards against is an operator configuring fail-open, writing the
//! rule by hand without `bypass`, and discovering during an outage that their IPS
//! is fail-closed.
//!
//! # The `nft` command
//!
//! The set is kept by running `nft`. Its arguments are fully constructed here from
//! an address and a duration, with no operator string in them.

use vstd::prelude::*;
use crate::address::{address_text, append_address};
use crate::bytes::{decode_utf8, utf8_text};
use crate::net::IpAddr;
use crate::text::{
    append, append_number, chars_of, decimal, owned, string_of, texts, trim, trimmed,
};
use crate::time::{Duration, NANOS_PER_SEC};
use super::store::FailMode;

verus! {

/// The table the sensor owns. Its own, so removing it cannot disturb anything
/// else an operator has configured.
pub const TABLE: &'static str = "cybersentinel";

/// The set of blocked sources.
pub const BLOCKED_SET_V4: &'static str = "blocked_v4";

/// The set of blocked sources, v6.
pub const BLOCKED_SET_V6: &'static str = "blocked_v6";

/// The `queue` statement for a fail mode.
pub open spec fn statement(queue: u16, fail_mode: FailMode) -> Seq<char> {
    match fail_mode {
        FailMode::Open => "queue num "@ + decimal(queue as nat) + " bypass"@,
        FailMode::Closed => "queue num "@ + decimal(queue as nat),
    }
}

/// The `queue` statement for a fail mode.
///
/// This is the whole of the fail-open mechanism. `bypass` tells the kernel to
/// accept rather than drop when no userspace program is listening, or when the
/// queue is full.
pub fn queue_statement(queue: u16, fail_mode: FailMode) -> (text: String)
    ensures
        text@ == statement(queue, fail_mode),
{
    let mut text = owned("queue num ");
    append_number(&mut text, queue as u64);
    match fail_mode {
        FailMode::Open => append(&mut text, " bypass"),
        FailMode::Closed => {},
    }
    text
}

/// What a ruleset says before its `queue` statement: the sets, and that what is in
/// them is dropped before it is queued.
pub open spec fn ruleset_head() -> Seq<char> {
    "table inet "@ + TABLE@ + " {\n  set "@ + BLOCKED_SET_V4@
        + " { type ipv4_addr; flags timeout; }\n  set "@ + BLOCKED_SET_V6@
        + " { type ipv6_addr; flags timeout; }\n  chain forward {\n    type filter hook forward priority 0; policy accept;\n    ip saddr @"@
        + BLOCKED_SET_V4@ + " drop\n    ip6 saddr @"@ + BLOCKED_SET_V6@ + " drop\n    "@
}

/// A complete, copy-pasteable ruleset for the configured mode.
///
/// For the log at startup rather than to be applied automatically: an inline rule
/// installed wrongly is an outage, so the operator gets to read it first.
pub fn queue_rule(queue: u16, fail_mode: FailMode) -> (text: String)
    ensures
        text@ == ruleset_head() + statement(queue, fail_mode) + "\n  }\n}"@,
{
    let mut text = owned("table inet ");
    append(&mut text, TABLE);
    append(&mut text, " {\n  set ");
    append(&mut text, BLOCKED_SET_V4);
    append(&mut text, " { type ipv4_addr; flags timeout; }\n  set ");
    append(&mut text, BLOCKED_SET_V6);
    append(
        &mut text,
        " { type ipv6_addr; flags timeout; }\n  chain forward {\n    type filter hook forward priority 0; policy accept;\n    ip saddr @",
    );
    append(&mut text, BLOCKED_SET_V4);
    append(&mut text, " drop\n    ip6 saddr @");
    append(&mut text, BLOCKED_SET_V6);
    append(&mut text, " drop\n    ");
    let statement = queue_statement(queue, fail_mode);
    append(&mut text, statement.as_str());
    append(&mut text, "\n  }\n}");
    text
}

/// What happened when the block set was updated.
#[derive(Debug, Clone, PartialEq, Eq)]
pub enum SetOutcome {
    /// The address is now in the kernel's set.
    Added,
    /// `nft` is not available. The verdict store still drops the traffic; what is
    /// lost is the cheap kernel-side drop for *new* connections, so this is a
    /// degradation rather than a failure.
    Unavailable(String),
    /// `nft` ran and refused.
    Failed(String),
}

/// How running `nft` ended.
#[derive(Debug)]
pub enum NftRun {
    /// It could not be run; why not.
    NotRun(String),
    /// It ran; whether it succeeded, and what it wrote to its error stream.
    Ran(bool, Vec<u8>),
}

/// What the end of a run of `nft` means.
pub fn set_outcome(run: NftRun) -> (outcome: SetOutcome)
    ensures
        match run {
            NftRun::Ran(success, stderr) => if success {
                outcome == SetOutcome::Added
            } else {
                outcome matches SetOutcome::Failed(detail) && detail@ == trimmed(
                    utf8_text(stderr@),
                )
            },
            NftRun::NotRun(error) => outcome matches SetOutcome::Unavailable(detail) && detail@
                == error@,
        },
{
    match run {
        NftRun::Ran(success, stderr) => {
            if success {
                SetOutcome::Added
            } else {
                let text = decode_utf8(stderr.as_slice());
                let chars = chars_of(text.as_str());
                SetOutcome::Failed(string_of(trim(chars.as_slice())))
            }
        },
        NftRun::NotRun(error) => SetOutcome::Unavailable(error),
    }
}

/// The `nft` arguments for adding one address to the block set.
pub open spec fn element_args(address: IpAddr, timeout: Duration) -> Seq<Seq<char>> {
    seq![
        "add"@,
        "element"@,
        "inet"@,
        TABLE@,
        match address {
            IpAddr::V4(_) => BLOCKED_SET_V4@,
            IpAddr::V6(_) => BLOCKED_SET_V6@,
        },
        "{ "@ + address_text(address) + " timeout "@ + decimal(
            (timeout.nanos / NANOS_PER_SEC) as nat,
        ) + "s }"@,
    ]
}

/// The `nft` arguments for adding one address to the block set.
///
/// Apart from running it, so that the command can be looked at without a kernel:
/// the risk is not that the command fails, it is that it silently does something
/// other than intended.
pub fn add_element_args(address: IpAddr, timeout: Duration) -> (args: Vec<String>)
    requires
        timeout.nanos / NANOS_PER_SEC <= u64::MAX,
    ensures
        texts(args@) == element_args(address, timeout),
{
    let set = match address {
        IpAddr::V4(_) => BLOCKED_SET_V4,
        IpAddr::V6(_) => BLOCKED_SET_V6,
    };
    let mut element = owned("{ ");
    append_address(&mut element, address);
    append(&mut element, " timeout ");
    append_number(&mut element, timeout.as_secs());
    append(&mut element, "s }");
    let mut args: Vec<String> = Vec::new();
    args.push(owned("add"));
    args.push(owned("element"));
    args.push(owned("inet"));
    args.push(owned(TABLE));
    args.push(owned(set));
    args.push(element);
    assert(texts(args@) =~= element_args(address, timeout));
    args
}

/// Failing open is what `bypass` asks for, and the only difference between the modes.
pub proof fn law_failing_open_is_a_bypass(queue: u16)
    ensures
        statement(queue, FailMode::Open) == statement(queue, FailMode::Closed) + " bypass"@,
        statement(queue, FailMode::Closed) == "queue num "@ + decimal(queue as nat),
{
}

/// An address is added to the set of its own family, for as many whole seconds as the
/// timeout has.
pub proof fn law_an_address_goes_to_the_set_of_its_family(address: IpAddr, secs: nat, timeout: Duration)
    requires
        secs * 1_000_000_000 <= timeout.nanos < (secs + 1) * 1_000_000_000,
    ensures
        element_args(address, timeout).len() == 6,
        element_args(address, timeout)[0] == "add"@,
        element_args(address, timeout)[1] == "element"@,
        element_args(address, timeout)[2] == "inet"@,
        element_args(address, timeout)[3] == "cybersentinel"@,
        address is V4 ==> element_args(address, timeout)[4] == "blocked_v4"@,
        address is V6 ==> element_args(address, timeout)[4] == "blocked_v6"@,
        element_args(address, timeout)[5] == "{ "@ + address_text(address) + " timeout "@ + decimal(
            secs,
        ) + "s }"@,
{
    assert(timeout.nanos / NANOS_PER_SEC == secs);
}

/// What is blocked is dropped before anything is queued: the two drop rules, by source
/// address and for the set of each family, stand directly in front of the `queue`
/// statement.
pub proof fn law_what_is_blocked_is_dropped_before_it_is_queued()
    ensures
        exists|front: Seq<char>|
            ruleset_head() == #[trigger] (front + "    ip saddr @"@) + "blocked_v4"@
                + " drop\n    ip6 saddr @"@ + "blocked_v6"@ + " drop\n    "@,
{
    reveal_strlit(" { type ipv6_addr; flags timeout; }\n  chain forward {\n    type filter hook forward priority 0; policy accept;\n    ip saddr @");
    reveal_strlit("    ip saddr @");
    let long =
        " { type ipv6_addr; flags timeout; }\n  chain forward {\n    type filter hook forward priority 0; policy accept;\n    ip saddr @"@;
    let short = "    ip saddr @"@;
    let before = "table inet "@ + TABLE@ + " {\n  set "@ + BLOCKED_SET_V4@
        + " { type ipv4_addr; flags timeout; }\n  set "@ + BLOCKED_SET_V6@;
    let front = before + long.take(long.len() - short.len());
    assert(long =~= long.take(long.len() - short.len()) + short);
    assert(before + long =~= front + short);
}

} // verus!
