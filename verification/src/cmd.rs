//! The command layer: one type per verb, each with its own argument
//! extraction and its effect against the data engine, and the closed
//! union that the connection handler matches on.

pub mod hget;
pub mod hgetall;
pub mod hset;
pub mod get;
pub mod set;
pub mod ping;
pub mod publish;
pub mod subscribe;
pub mod stream_producer;

use vstd::prelude::*;
use crate::frame::{Frame, FrameV, frame_view};
use crate::parse::{Parse, ParseError, bytes_of, int_of, bytes_args_err};
use crate::util::{to_lower, lower_seq, bytes_eq};
use crate::cmd::get::Get;
use crate::cmd::set::SetCmd;
use crate::cmd::ping::Ping;
use crate::cmd::publish::Publish;
use crate::cmd::subscribe::{Subscribe, Unsubscribe, names_of, lemma_names_len};
use crate::cmd::hget::HGet;
use crate::cmd::hgetall::HGetAll;
use crate::cmd::hset::HSet;

verus! {

/// A parsed command, one variant per verb; an unrecognized verb is
/// carried whole so the connection can answer it with an error frame.
pub enum Command {
    Ping(Ping),
    Get(Get),
    SetCmd(SetCmd),
    Publish(Publish),
    Subscribe(Subscribe),
    Unsubscribe(Unsubscribe),
    HSet(HSet),
    HGet(HGet),
    HGetAll(HGetAll),
    Unknown(Vec<u8>),
}

/// The mathematical shape of a parsed command.
pub ghost enum CommandV {
    Ping(Option<Seq<u8>>),
    Get(Seq<u8>),
    SetCmd { key: Seq<u8>, value: Seq<u8>, expire_ms: Option<u64> },
    Publish { channel: Seq<u8>, message: Seq<u8> },
    Subscribe(Seq<Seq<u8>>),
    Unsubscribe(Seq<Seq<u8>>),
    HSet { key: Seq<u8>, field: Seq<u8>, value: Seq<u8> },
    HGet { key: Seq<u8>, field: Seq<u8> },
    HGetAll(Seq<u8>),
    Unknown(Seq<u8>),
}

pub open spec fn cmd_view(c: Command) -> CommandV {
    match c {
        Command::Ping(p) => CommandV::Ping(p.spec_msg()),
        Command::Get(g) => CommandV::Get(g.spec_key()),
        Command::SetCmd(s) => CommandV::SetCmd {
            key: s.spec_key(),
            value: s.spec_value(),
            expire_ms: s.spec_expire_ms(),
        },
        Command::Publish(p) => CommandV::Publish {
            channel: p.spec_channel(),
            message: p.spec_message(),
        },
        Command::Subscribe(s) => CommandV::Subscribe(s.spec_channels()),
        Command::Unsubscribe(u) => CommandV::Unsubscribe(u.spec_channels()),
        Command::HSet(h) => CommandV::HSet {
            key: h.spec_key(),
            field: h.spec_field(),
            value: h.spec_value(),
        },
        Command::HGet(h) => CommandV::HGet { key: h.spec_key(), field: h.spec_field() },
        Command::HGetAll(h) => CommandV::HGetAll(h.spec_key()),
        Command::Unknown(v) => CommandV::Unknown(v@),
    }
}

pub open spec fn lit_ping() -> Seq<u8> {
    seq![112u8, 105u8, 110u8, 103u8]
}

pub open spec fn lit_get() -> Seq<u8> {
    seq![103u8, 101u8, 116u8]
}

pub open spec fn lit_set() -> Seq<u8> {
    seq![115u8, 101u8, 116u8]
}

pub open spec fn lit_publish() -> Seq<u8> {
    seq![112u8, 117u8, 98u8, 108u8, 105u8, 115u8, 104u8]
}

pub open spec fn lit_subscribe() -> Seq<u8> {
    seq![115u8, 117u8, 98u8, 115u8, 99u8, 114u8, 105u8, 98u8, 101u8]
}

pub open spec fn lit_unsubscribe() -> Seq<u8> {
    seq![117u8, 110u8, 115u8, 117u8, 98u8, 115u8, 99u8, 114u8, 105u8, 98u8, 101u8]
}

pub open spec fn lit_hset() -> Seq<u8> {
    seq![104u8, 115u8, 101u8, 116u8]
}

pub open spec fn lit_hget() -> Seq<u8> {
    seq![104u8, 103u8, 101u8, 116u8]
}

pub open spec fn lit_hgetall() -> Seq<u8> {
    seq![104u8, 103u8, 101u8, 116u8, 97u8, 108u8, 108u8]
}

/// What one command array means, if anything: the verb is matched
/// case-insensitively, and each verb fixes the shape of the rest.
pub open spec fn spec_parse_cmd(items: Seq<FrameV>) -> Option<CommandV> {
    if items.len() == 0 {
        None
    } else {
        match bytes_of(items[0]) {
            None => None,
            Some(vb) => {
                let verb = lower_seq(vb);
                if verb == lit_ping() {
                    if items.len() == 1 {
                        Some(CommandV::Ping(None))
                    } else if items.len() == 2 {
                        match bytes_of(items[1]) {
                            Some(m) => Some(CommandV::Ping(Some(m))),
                            None => None,
                        }
                    } else {
                        None
                    }
                } else if verb == lit_get() {
                    if items.len() == 2 {
                        match bytes_of(items[1]) {
                            Some(k) => Some(CommandV::Get(k)),
                            None => None,
                        }
                    } else {
                        None
                    }
                } else if verb == lit_set() {
                    if items.len() == 3 {
                        match (bytes_of(items[1]), bytes_of(items[2])) {
                            (Some(k), Some(v)) => Some(
                                CommandV::SetCmd { key: k, value: v, expire_ms: None },
                            ),
                            _ => None,
                        }
                    } else if items.len() == 4 {
                        match (bytes_of(items[1]), bytes_of(items[2]), int_of(items[3])) {
                            (Some(k), Some(v), Some(ms)) => Some(
                                CommandV::SetCmd { key: k, value: v, expire_ms: Some(ms) },
                            ),
                            _ => None,
                        }
                    } else {
                        None
                    }
                } else if verb == lit_publish() {
                    if items.len() == 3 {
                        match (bytes_of(items[1]), bytes_of(items[2])) {
                            (Some(c), Some(m)) => Some(
                                CommandV::Publish { channel: c, message: m },
                            ),
                            _ => None,
                        }
                    } else {
                        None
                    }
                } else if verb == lit_subscribe() {
                    if items.len() >= 2 {
                        match names_of(items.drop_first()) {
                            Some(ns) => Some(CommandV::Subscribe(ns)),
                            None => None,
                        }
                    } else {
                        None
                    }
                } else if verb == lit_unsubscribe() {
                    match names_of(items.drop_first()) {
                        Some(ns) => Some(CommandV::Unsubscribe(ns)),
                        None => None,
                    }
                } else if verb == lit_hset() {
                    if items.len() == 4 {
                        match (bytes_of(items[1]), bytes_of(items[2]), bytes_of(items[3])) {
                            (Some(k), Some(f), Some(v)) => Some(
                                CommandV::HSet { key: k, field: f, value: v },
                            ),
                            _ => None,
                        }
                    } else {
                        None
                    }
                } else if verb == lit_hget() {
                    if items.len() == 3 {
                        match (bytes_of(items[1]), bytes_of(items[2])) {
                            (Some(k), Some(f)) => Some(CommandV::HGet { key: k, field: f }),
                            _ => None,
                        }
                    } else {
                        None
                    }
                } else if verb == lit_hgetall() {
                    if items.len() == 2 {
                        match bytes_of(items[1]) {
                            Some(k) => Some(CommandV::HGetAll(k)),
                            None => None,
                        }
                    } else {
                        None
                    }
                } else {
                    Some(CommandV::Unknown(verb))
                }
            },
        }
    }
}

fn lit_vec_of(which: u8) -> (r: Vec<u8>)
    ensures
        which == 0 ==> r@ == lit_ping(),
        which == 1 ==> r@ == lit_get(),
        which == 2 ==> r@ == lit_set(),
        which == 3 ==> r@ == lit_publish(),
        which == 4 ==> r@ == lit_subscribe(),
        which == 5 ==> r@ == lit_unsubscribe(),
        which == 6 ==> r@ == lit_hset(),
        which == 7 ==> r@ == lit_hget(),
        which == 8 ==> r@ == lit_hgetall(),
{
    let r: Vec<u8> = if which == 0 {
        vec![112u8, 105u8, 110u8, 103u8]
    } else if which == 1 {
        vec![103u8, 101u8, 116u8]
    } else if which == 2 {
        vec![115u8, 101u8, 116u8]
    } else if which == 3 {
        vec![112u8, 117u8, 98u8, 108u8, 105u8, 115u8, 104u8]
    } else if which == 4 {
        vec![115u8, 117u8, 98u8, 115u8, 99u8, 114u8, 105u8, 98u8, 101u8]
    } else if which == 5 {
        vec![117u8, 110u8, 115u8, 117u8, 98u8, 115u8, 99u8, 114u8, 105u8, 98u8, 101u8]
    } else if which == 6 {
        vec![104u8, 115u8, 101u8, 116u8]
    } else if which == 7 {
        vec![104u8, 103u8, 101u8, 116u8]
    } else {
        vec![104u8, 103u8, 101u8, 116u8, 97u8, 108u8, 108u8]
    };
    r
}

/// Which error, if any, parsing this command array draws: the verb is
/// read first, then each verb checks its own arity and shapes, then
/// exhaustion; an unknown verb is not an error here.
pub open spec fn spec_cmd_err(items: Seq<FrameV>) -> Option<ParseError> {
    if items.len() == 0 {
        Some(ParseError::EndOfStream)
    } else {
        match bytes_of(items[0]) {
            None => Some(ParseError::WrongType),
            Some(vb) => {
                let verb = lower_seq(vb);
                let rest = items.drop_first();
                if verb == lit_ping() {
                    if items.len() == 1 {
                        None
                    } else if bytes_of(items[1]) is None {
                        Some(ParseError::WrongType)
                    } else if items.len() > 2 {
                        Some(ParseError::Trailing)
                    } else {
                        None
                    }
                } else if verb == lit_get() {
                    match bytes_args_err(rest, 1) {
                        Some(e) => Some(e),
                        None => if items.len() > 2 {
                            Some(ParseError::Trailing)
                        } else {
                            None
                        },
                    }
                } else if verb == lit_set() {
                    match bytes_args_err(rest, 2) {
                        Some(e) => Some(e),
                        None => if items.len() == 3 {
                            None
                        } else if int_of(items[3]) is None {
                            Some(ParseError::WrongType)
                        } else if items.len() > 4 {
                            Some(ParseError::Trailing)
                        } else {
                            None
                        },
                    }
                } else if verb == lit_publish() {
                    match bytes_args_err(rest, 2) {
                        Some(e) => Some(e),
                        None => if items.len() > 3 {
                            Some(ParseError::Trailing)
                        } else {
                            None
                        },
                    }
                } else if verb == lit_subscribe() {
                    if items.len() == 1 {
                        Some(ParseError::EndOfStream)
                    } else if names_of(rest) is None {
                        Some(ParseError::WrongType)
                    } else {
                        None
                    }
                } else if verb == lit_unsubscribe() {
                    if names_of(rest) is None {
                        Some(ParseError::WrongType)
                    } else {
                        None
                    }
                } else if verb == lit_hset() {
                    match bytes_args_err(rest, 3) {
                        Some(e) => Some(e),
                        None => if items.len() > 4 {
                            Some(ParseError::Trailing)
                        } else {
                            None
                        },
                    }
                } else if verb == lit_hget() {
                    match bytes_args_err(rest, 2) {
                        Some(e) => Some(e),
                        None => if items.len() > 3 {
                            Some(ParseError::Trailing)
                        } else {
                            None
                        },
                    }
                } else if verb == lit_hgetall() {
                    match bytes_args_err(rest, 1) {
                        Some(e) => Some(e),
                        None => if items.len() > 2 {
                            Some(ParseError::Trailing)
                        } else {
                            None
                        },
                    }
                } else {
                    None
                }
            },
        }
    }
}

/// The shared shape of each per-verb parser: an accepted command means
/// exactly what `spec_parse_cmd` says, a rejection draws exactly the
/// error `spec_cmd_err` names.
pub open spec fn verb_parse_post(r: Result<Command, ParseError>, items: Seq<FrameV>) -> bool {
    match r {
        Ok(c) => Some(cmd_view(c)) == spec_parse_cmd(items) && spec_cmd_err(items) is None,
        Err(e) => spec_parse_cmd(items) is None && spec_cmd_err(items) == Some(e),
    }
}

/// The verb of the command array, lowered, is the given literal.
pub open spec fn verb_is(items: Seq<FrameV>, lit: Seq<u8>) -> bool {
    items.len() >= 1 && bytes_of(items[0]) is Some && lower_seq(bytes_of(items[0])->0) == lit
}

/// The nine verb literals are pairwise distinct.
proof fn lemma_verb_lits_distinct()
    ensures
        lit_ping() != lit_get(),
        lit_ping() != lit_set(),
        lit_ping() != lit_publish(),
        lit_ping() != lit_subscribe(),
        lit_ping() != lit_unsubscribe(),
        lit_ping() != lit_hset(),
        lit_ping() != lit_hget(),
        lit_ping() != lit_hgetall(),
        lit_get() != lit_set(),
        lit_get() != lit_publish(),
        lit_get() != lit_subscribe(),
        lit_get() != lit_unsubscribe(),
        lit_get() != lit_hset(),
        lit_get() != lit_hget(),
        lit_get() != lit_hgetall(),
        lit_set() != lit_publish(),
        lit_set() != lit_subscribe(),
        lit_set() != lit_unsubscribe(),
        lit_set() != lit_hset(),
        lit_set() != lit_hget(),
        lit_set() != lit_hgetall(),
        lit_publish() != lit_subscribe(),
        lit_publish() != lit_unsubscribe(),
        lit_publish() != lit_hset(),
        lit_publish() != lit_hget(),
        lit_publish() != lit_hgetall(),
        lit_subscribe() != lit_unsubscribe(),
        lit_subscribe() != lit_hset(),
        lit_subscribe() != lit_hget(),
        lit_subscribe() != lit_hgetall(),
        lit_unsubscribe() != lit_hset(),
        lit_unsubscribe() != lit_hget(),
        lit_unsubscribe() != lit_hgetall(),
        lit_hset() != lit_hget(),
        lit_hset() != lit_hgetall(),
        lit_hget() != lit_hgetall(),
{
    assert(lit_ping().len() == 4);
    assert(lit_get().len() == 3);
    assert(lit_set().len() == 3);
    assert(lit_publish().len() == 7);
    assert(lit_subscribe().len() == 9);
    assert(lit_unsubscribe().len() == 11);
    assert(lit_hset().len() == 4);
    assert(lit_hget().len() == 4);
    assert(lit_hgetall().len() == 7);
    if lit_ping() == lit_hset() {
        assert(lit_ping()[0] == lit_hset()[0]);
    }
    if lit_ping() == lit_hget() {
        assert(lit_ping()[0] == lit_hget()[0]);
    }
    if lit_hset() == lit_hget() {
        assert(lit_hset()[1] == lit_hget()[1]);
    }
    if lit_get() == lit_set() {
        assert(lit_get()[0] == lit_set()[0]);
    }
    if lit_publish() == lit_hgetall() {
        assert(lit_publish()[0] == lit_hgetall()[0]);
    }
}

fn parse_ping(parse: &mut Parse, Ghost(items): Ghost<Seq<FrameV>>) -> (r: Result<
    Command,
    ParseError,
>)
    requires
        verb_is(items, lit_ping()),
        old(parse).rest() == items.drop_first(),
    ensures
        verb_parse_post(r, items),
{
    proof {
        lemma_verb_lits_distinct();
    }
    let p = match Ping::parse_frames(parse) {
        Ok(p) => p,
        Err(e) => {
            proof {
                assert(items.drop_first()[0] == items[1]);
            }
            return Err(e);
        },
    };
    match parse.finish() {
        Ok(_) => {},
        Err(e) => {
            proof {
                if items.len() >= 2 {
                    assert(items.drop_first()[0] == items[1]);
                }
            }
            return Err(e);
        },
    }
    proof {
        if items.len() >= 2 {
            assert(items.drop_first()[0] == items[1]);
        }
    }
    Ok(Command::Ping(p))
}

fn parse_get(parse: &mut Parse, Ghost(items): Ghost<Seq<FrameV>>) -> (r: Result<
    Command,
    ParseError,
>)
    requires
        verb_is(items, lit_get()),
        old(parse).rest() == items.drop_first(),
    ensures
        verb_parse_post(r, items),
{
    proof {
        lemma_verb_lits_distinct();
    }
    let g = match Get::parse_frames(parse) {
        Ok(g) => g,
        Err(e) => {
            return Err(e);
        },
    };
    match parse.finish() {
        Ok(_) => {},
        Err(e) => {
            proof {
                assert(items.drop_first()[0] == items[1]);
                assert(bytes_args_err(items.drop_first(), 1) is None) by {
                    let r1 = items.drop_first();
                    assert(bytes_args_err(r1, 1) == bytes_args_err(r1.drop_first(), 0));
                }
            }
            return Err(e);
        },
    }
    proof {
        assert(items.drop_first()[0] == items[1]);
        assert(bytes_args_err(items.drop_first(), 1) is None) by {
            let r1 = items.drop_first();
            assert(bytes_args_err(r1, 1) == bytes_args_err(r1.drop_first(), 0));
        }
    }
    Ok(Command::Get(g))
}

fn parse_set(parse: &mut Parse, Ghost(items): Ghost<Seq<FrameV>>) -> (r: Result<
    Command,
    ParseError,
>)
    requires
        verb_is(items, lit_set()),
        old(parse).rest() == items.drop_first(),
    ensures
        verb_parse_post(r, items),
{
    proof {
        lemma_verb_lits_distinct();
    }
    let st = match SetCmd::parse_frames(parse) {
        Ok(st) => st,
        Err(e) => {
            proof {
                if items.len() >= 2 {
                    assert(items.drop_first()[0] == items[1]);
                }
                if items.len() >= 3 {
                    assert(items.drop_first()[1] == items[2]);
                }
                if items.len() >= 4 {
                    assert(items.drop_first()[2] == items[3]);
                }
            }
            return Err(e);
        },
    };
    match parse.finish() {
        Ok(_) => {},
        Err(e) => {
            proof {
                lemma_two_bytes_ok(items);
                if items.len() >= 4 {
                    assert(items.drop_first()[2] == items[3]);
                }
            }
            return Err(e);
        },
    }
    proof {
        lemma_two_bytes_ok(items);
        if items.len() >= 4 {
            assert(items.drop_first()[2] == items[3]);
        }
    }
    Ok(Command::SetCmd(st))
}

fn parse_publish(parse: &mut Parse, Ghost(items): Ghost<Seq<FrameV>>) -> (r: Result<
    Command,
    ParseError,
>)
    requires
        verb_is(items, lit_publish()),
        old(parse).rest() == items.drop_first(),
    ensures
        verb_parse_post(r, items),
{
    proof {
        lemma_verb_lits_distinct();
    }
    let p = match Publish::parse_frames(parse) {
        Ok(p) => p,
        Err(e) => {
            return Err(e);
        },
    };
    match parse.finish() {
        Ok(_) => {},
        Err(e) => {
            proof {
                lemma_two_bytes_ok(items);
            }
            return Err(e);
        },
    }
    proof {
        lemma_two_bytes_ok(items);
    }
    Ok(Command::Publish(p))
}

fn parse_subscribe(parse: &mut Parse, Ghost(items): Ghost<Seq<FrameV>>) -> (r: Result<
    Command,
    ParseError,
>)
    requires
        verb_is(items, lit_subscribe()),
        old(parse).rest() == items.drop_first(),
    ensures
        verb_parse_post(r, items),
{
    proof {
        lemma_verb_lits_distinct();
    }
    let sb = match Subscribe::parse_frames(parse) {
        Ok(sb) => sb,
        Err(e) => {
            return Err(e);
        },
    };
    proof {
        lemma_names_len(items.drop_first());
    }
    Ok(Command::Subscribe(sb))
}

fn parse_unsubscribe(parse: &mut Parse, Ghost(items): Ghost<Seq<FrameV>>) -> (r: Result<
    Command,
    ParseError,
>)
    requires
        verb_is(items, lit_unsubscribe()),
        old(parse).rest() == items.drop_first(),
    ensures
        verb_parse_post(r, items),
{
    proof {
        lemma_verb_lits_distinct();
    }
    let us = match Unsubscribe::parse_frames(parse) {
        Ok(us) => us,
        Err(e) => {
            return Err(e);
        },
    };
    Ok(Command::Unsubscribe(us))
}

fn parse_hset(parse: &mut Parse, Ghost(items): Ghost<Seq<FrameV>>) -> (r: Result<
    Command,
    ParseError,
>)
    requires
        verb_is(items, lit_hset()),
        old(parse).rest() == items.drop_first(),
    ensures
        verb_parse_post(r, items),
{
    proof {
        lemma_verb_lits_distinct();
    }
    let h = match HSet::parse_frames(parse) {
        Ok(h) => h,
        Err(e) => {
            return Err(e);
        },
    };
    match parse.finish() {
        Ok(_) => {},
        Err(e) => {
            proof {
                lemma_three_bytes_ok(items);
            }
            return Err(e);
        },
    }
    proof {
        lemma_three_bytes_ok(items);
    }
    Ok(Command::HSet(h))
}

fn parse_hget(parse: &mut Parse, Ghost(items): Ghost<Seq<FrameV>>) -> (r: Result<
    Command,
    ParseError,
>)
    requires
        verb_is(items, lit_hget()),
        old(parse).rest() == items.drop_first(),
    ensures
        verb_parse_post(r, items),
{
    proof {
        lemma_verb_lits_distinct();
    }
    let h = match HGet::parse_frames(parse) {
        Ok(h) => h,
        Err(e) => {
            return Err(e);
        },
    };
    match parse.finish() {
        Ok(_) => {},
        Err(e) => {
            proof {
                lemma_two_bytes_ok(items);
            }
            return Err(e);
        },
    }
    proof {
        lemma_two_bytes_ok(items);
    }
    Ok(Command::HGet(h))
}

fn parse_hgetall(parse: &mut Parse, Ghost(items): Ghost<Seq<FrameV>>) -> (r: Result<
    Command,
    ParseError,
>)
    requires
        verb_is(items, lit_hgetall()),
        old(parse).rest() == items.drop_first(),
    ensures
        verb_parse_post(r, items),
{
    proof {
        lemma_verb_lits_distinct();
    }
    let h = match HGetAll::parse_frames(parse) {
        Ok(h) => h,
        Err(e) => {
            return Err(e);
        },
    };
    match parse.finish() {
        Ok(_) => {},
        Err(e) => {
            proof {
                assert(items.drop_first()[0] == items[1]);
                assert(bytes_args_err(items.drop_first(), 1) is None) by {
                    let r1 = items.drop_first();
                    assert(bytes_args_err(r1, 1) == bytes_args_err(r1.drop_first(), 0));
                }
            }
            return Err(e);
        },
    }
    proof {
        assert(items.drop_first()[0] == items[1]);
        assert(bytes_args_err(items.drop_first(), 1) is None) by {
            let r1 = items.drop_first();
            assert(bytes_args_err(r1, 1) == bytes_args_err(r1.drop_first(), 0));
        }
    }
    Ok(Command::HGetAll(h))
}

/// With byte payloads at the first two argument positions, extracting
/// two byte-shaped arguments cannot fail.
proof fn lemma_two_bytes_ok(items: Seq<FrameV>)
    requires
        items.len() >= 3,
        bytes_of(items[1]) is Some,
        bytes_of(items[2]) is Some,
    ensures
        bytes_args_err(items.drop_first(), 2) is None,
{
    let r1 = items.drop_first();
    assert(r1[0] == items[1]);
    assert(bytes_args_err(r1, 2) == bytes_args_err(r1.drop_first(), 1));
    assert(r1.drop_first()[0] == items[2]);
    assert(bytes_args_err(r1.drop_first(), 1) == bytes_args_err(
        r1.drop_first().drop_first(),
        0,
    ));
}

/// With byte payloads at the first three argument positions,
/// extracting three byte-shaped arguments cannot fail.
proof fn lemma_three_bytes_ok(items: Seq<FrameV>)
    requires
        items.len() >= 4,
        bytes_of(items[1]) is Some,
        bytes_of(items[2]) is Some,
        bytes_of(items[3]) is Some,
    ensures
        bytes_args_err(items.drop_first(), 3) is None,
{
    let r1 = items.drop_first();
    assert(r1[0] == items[1]);
    assert(bytes_args_err(r1, 3) == bytes_args_err(r1.drop_first(), 2));
    assert(r1.drop_first()[0] == items[2]);
    assert(bytes_args_err(r1.drop_first(), 2) == bytes_args_err(
        r1.drop_first().drop_first(),
        1,
    ));
    assert(r1.drop_first().drop_first()[0] == items[3]);
    assert(bytes_args_err(r1.drop_first().drop_first(), 1) == bytes_args_err(
        r1.drop_first().drop_first().drop_first(),
        0,
    ));
}

impl Command {
    /// Turns one decoded frame into a command: only an array of
    /// byte-string arguments can carry one, the verb is matched
    /// case-insensitively, and each verb checks its own arity and
    /// argument shapes. A rejection draws exactly the error that
    /// `spec_cmd_err` names for the array.
    pub fn from_frame(frame: Frame) -> (r: Result<Command, ParseError>)
        ensures
            match r {
                Ok(c) => frame_view(frame) is Array && Some(cmd_view(c)) == spec_parse_cmd(
                    frame_view(frame)->Array_0,
                ),
                Err(e) => if frame_view(frame) is Array {
                    spec_parse_cmd(frame_view(frame)->Array_0) is None && spec_cmd_err(
                        frame_view(frame)->Array_0,
                    ) == Some(e)
                } else {
                    e == ParseError::NotArray
                },
            },
    {
        let ghost items = frame_view(frame)->Array_0;
        let mut parse = match Parse::new(frame) {
            Ok(p) => p,
            Err(e) => {
                return Err(e);
            },
        };
        let vb = match parse.next_string() {
            Ok(v) => v,
            Err(e) => {
                return Err(e);
            },
        };
        let verb = to_lower(&vb);
        proof {
            assert(bytes_of(items[0]) == Some(vb@));
            assert(verb@ == lower_seq(vb@));
        }
        if bytes_eq(&verb, &lit_vec_of(0)) {
            proof {
                assert(verb@ =~= lit_ping());
            }
            parse_ping(&mut parse, Ghost(items))
        } else if bytes_eq(&verb, &lit_vec_of(1)) {
            proof {
                assert(verb@ =~= lit_get());
            }
            parse_get(&mut parse, Ghost(items))
        } else if bytes_eq(&verb, &lit_vec_of(2)) {
            proof {
                assert(verb@ =~= lit_set());
            }
            parse_set(&mut parse, Ghost(items))
        } else if bytes_eq(&verb, &lit_vec_of(3)) {
            proof {
                assert(verb@ =~= lit_publish());
            }
            parse_publish(&mut parse, Ghost(items))
        } else if bytes_eq(&verb, &lit_vec_of(4)) {
            proof {
                assert(verb@ =~= lit_subscribe());
            }
            parse_subscribe(&mut parse, Ghost(items))
        } else if bytes_eq(&verb, &lit_vec_of(5)) {
            proof {
                assert(verb@ =~= lit_unsubscribe());
            }
            parse_unsubscribe(&mut parse, Ghost(items))
        } else if bytes_eq(&verb, &lit_vec_of(6)) {
            proof {
                assert(verb@ =~= lit_hset());
            }
            parse_hset(&mut parse, Ghost(items))
        } else if bytes_eq(&verb, &lit_vec_of(7)) {
            proof {
                assert(verb@ =~= lit_hget());
            }
            parse_hget(&mut parse, Ghost(items))
        } else if bytes_eq(&verb, &lit_vec_of(8)) {
            proof {
                assert(verb@ =~= lit_hgetall());
            }
            parse_hgetall(&mut parse, Ghost(items))
        } else {
            Ok(Command::Unknown(verb))
        }
    }
}

} // verus!
